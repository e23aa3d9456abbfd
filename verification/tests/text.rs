use supergravity::text;

#[test]
fn searching_and_replacing() {
    assert!(text::contains("abc", "bc"));
    assert!(text::contains("abc", ""));
    assert!(!text::contains("abc", "cb"));
    assert_eq!(text::count_matches("aaaa", "aa"), 2);
    assert_eq!(text::replace_n("aaaa", "aa", "b", 1), "baa");
    assert_eq!(text::replace_n("a-a-a", "a", "é", 2), "é-é-a");
    assert_eq!(text::strip_prefix("data: x", "data:").as_deref(), Some(" x"));
    assert_eq!(text::strip_prefix("x", "xx"), None);
    assert!(text::starts_with("xx", "x"));
}

#[test]
fn lines_are_those_of_the_standard_library() {
    for s in ["", "\n", "a", "a\n", "a\n\nb", "a\r\nb\r", "\r\n", "é\n…\r\n\n"] {
        let expected: Vec<&str> = s.lines().collect();
        assert_eq!(text::lines(s), expected, "{s:?}");
    }
}

#[test]
fn trimming_is_that_of_the_standard_library() {
    for s in ["", " ", " a ", "\u{3000}a b\u{85}", "\u{200b}x\u{2029}", "\t\n\x0b\x0c\r\u{1680}y"] {
        assert_eq!(text::trim(s), s.trim(), "{s:?}");
        assert_eq!(text::trim_end(s), s.trim_end());
        assert_eq!(text::trim_start(s), s.trim_start());
    }
    assert_eq!(text::trim_end_of("a///", '/'), "a");
}

#[test]
fn whitespace_is_that_of_the_standard_library() {
    for n in 0..0x11000u32 {
        if let Some(c) = char::from_u32(n) {
            assert_eq!(text::is_whitespace(c), c.is_whitespace(), "{n:x}");
        }
    }
}

#[test]
fn numbers_are_written_in_decimal() {
    for n in [0u64, 9, 10, 105, u64::MAX] {
        assert_eq!(text::decimal_of(n), n.to_string());
    }
    for n in [0i32, -1, i32::MIN, i32::MAX] {
        assert_eq!(text::signed_decimal_of(n), n.to_string());
    }
}

#[test]
fn sorting_orders_and_keeps_every_text() {
    let words = ["b", "", "a", "é", "ab", "B", "a", "𝄞"];
    let mut expected: Vec<String> = words.iter().map(|w| w.to_string()).collect();
    let got = text::sort_strings(expected.clone());
    expected.sort();
    assert_eq!(got, expected);
}

#[test]
fn splitting_joining_and_cutting() {
    assert_eq!(text::split("a//b/", '/'), vec!["a", "", "b", ""]);
    assert_eq!(text::split("", '/'), vec![""]);
    assert_eq!(text::join(&vec!["a".into(), "".into(), "b".into()], ", "), "a, , b");
    assert_eq!(text::take_chars("äöü", 2), "äö");
    assert_eq!(text::take_chars("äöü", 9), "äöü");
    assert_eq!(text::replace_char("a\\b\\", '\\', '/'), "a/b/");
    assert!(text::str_eq("é", "é"));
    assert!(!text::str_eq("e", "é"));
}
