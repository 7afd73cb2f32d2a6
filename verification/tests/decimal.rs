use hackernews::decimal::{decimal_chars, parse_i64};

fn parse(s: &str) -> Option<i64> {
    let chars: Vec<char> = s.chars().collect();
    parse_i64(&chars)
}

#[test]
fn parses_what_the_standard_library_parses() {
    for s in [
        "", "0", "7", "-7", "+7", "+", "-", "--7", "+-7", "007", "-007", "12a", "a12", " 12", "12 ",
        "9223372036854775807", "9223372036854775808", "-9223372036854775808",
        "-9223372036854775809", "99999999999999999999999", "00000000000000000000000001",
        "1_000", "0x10", "1.0", "\u{661}",
    ] {
        assert_eq!(parse(s), s.parse::<i64>().ok(), "{:?}", s);
    }
}

#[test]
fn writes_what_the_standard_library_writes() {
    for n in [0, 1, 9, 10, 11, 99, 100, -1, -9, -10, 1234567890, i64::MAX, i64::MIN, i64::MIN + 1] {
        assert_eq!(decimal_chars(n).into_iter().collect::<String>(), n.to_string());
    }
}
