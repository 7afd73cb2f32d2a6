use hackernews::entities::replace;
use hackernews::text::{
    chars_of, find, find_char, find_last, is_blank, is_whitespace, same, stands_at, string_of,
};

fn chars(s: &str) -> Vec<char> {
    s.chars().collect()
}

#[test]
fn whitespace_is_what_the_standard_library_calls_whitespace() {
    for code in 0..=0x10FFFFu32 {
        if let Some(c) = char::from_u32(code) {
            assert_eq!(is_whitespace(c), c.is_whitespace(), "U+{:04X}", code);
        }
    }
}

#[test]
fn blank_text() {
    assert!(is_blank(&chars("")));
    assert!(is_blank(&chars(" \t\r\n\u{a0}\u{3000}")));
    assert!(!is_blank(&chars("  x ")));
}

#[test]
fn strings_and_characters_convert_both_ways() {
    for s in ["", "abc", "caf\u{e9} \u{2603} \u{1F600}"] {
        assert_eq!(chars_of(s), chars(s));
        assert_eq!(string_of(&chars(s)), s);
    }
}

#[test]
fn finds_the_first_and_the_last_occurrence() {
    let s = chars("abcabcab");
    assert_eq!(find(&s, &chars("bc"), 0), Some(1));
    assert_eq!(find(&s, &chars("bc"), 2), Some(4));
    assert_eq!(find(&s, &chars("bc"), 5), None);
    assert_eq!(find(&s, &chars("abcabcabc"), 0), None);
    assert_eq!(find(&s, &chars(""), 3), Some(3));
    assert_eq!(find(&s, &chars(""), 8), Some(8));
    assert_eq!(find(&s, &chars(""), 9), None);
    assert_eq!(find(&s, &chars("ab"), 100), None);
    assert_eq!(find_last(&s, &chars("ab")), Some(6));
    assert_eq!(find_last(&s, &chars("c")), Some(5));
    assert_eq!(find_last(&s, &chars("x")), None);
    assert_eq!(find_last(&s, &chars("")), Some(8));
    assert_eq!(find_last(&chars(""), &chars("a")), None);
    assert_eq!(find_char(&s, 'c', 0), Some(2));
    assert_eq!(find_char(&s, 'c', 3), Some(5));
    assert_eq!(find_char(&s, 'c', 6), None);
    assert_eq!(find_char(&s, 'c', 60), None);
}

#[test]
fn occurrences_and_equality() {
    let s = chars("hello");
    assert!(stands_at(&s, &chars("ell"), 1));
    assert!(!stands_at(&s, &chars("ell"), 2));
    assert!(!stands_at(&s, &chars("lo!"), 3));
    assert!(stands_at(&s, &chars(""), 5));
    assert!(!stands_at(&s, &chars(""), 6));
    assert!(same(&s, &chars("hello")));
    assert!(!same(&s, &chars("hell")));
    assert!(!same(&s, &chars("hellp")));
}

#[test]
fn replaces_as_the_standard_library_does() {
    let cases = [
        ("", "a", "b"),
        ("aaa", "a", "bb"),
        ("aaaa", "aa", "b"),
        ("aaaaa", "aa", "b"),
        ("abcabc", "bc", ""),
        ("abcabc", "x", "y"),
        ("a&amp;amp;b", "&amp;", "&"),
        ("\u{e9}x\u{e9}", "\u{e9}", "e"),
    ];
    for (s, pat, rep) in cases {
        let out: String = replace(&chars(s), &chars(pat), &chars(rep)).into_iter().collect();
        assert_eq!(out, s.replace(pat, rep), "{:?} {:?} {:?}", s, pat, rep);
    }
    let out: String = replace(&chars("abc"), &chars(""), &chars("-")).into_iter().collect();
    assert_eq!(out, "abc");
}
