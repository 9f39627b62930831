use projecthub::text::{
    contains_chars, eq_ignore_ascii_case, is_blank, is_whitespace, to_ascii_lower, to_chars, trim,
};

#[test]
fn trim_removes_unicode_whitespace_at_both_ends() {
    assert_eq!(trim("  hello world \t\n"), "hello world");
    assert_eq!(trim("\u{3000}\u{a0}x\u{2029}"), "x");
    assert_eq!(trim(""), "");
    assert_eq!(trim(" \t "), "");
    assert_eq!(trim("a b"), "a b");
}

#[test]
fn trim_agrees_with_std() {
    for s in ["", " ", "x", " x ", "\u{85}y\u{200a}", "a\u{200b}", " \u{1680}z z\r\n"] {
        assert_eq!(trim(s), s.trim());
    }
}

#[test]
fn whitespace_agrees_with_std() {
    for u in 0u32..0x3100 {
        if let Some(c) = char::from_u32(u) {
            assert_eq!(is_whitespace(c), c.is_whitespace(), "U+{u:04X}");
        }
    }
}

#[test]
fn blank_lines() {
    assert!(is_blank(""));
    assert!(is_blank(" \r\t"));
    assert!(!is_blank(" x "));
}

#[test]
fn ascii_case_folding() {
    assert_eq!(to_ascii_lower('Q'), 'q');
    assert_eq!(to_ascii_lower('q'), 'q');
    assert_eq!(to_ascii_lower('Ä'), 'Ä');
    assert!(eq_ignore_ascii_case("C:\\Program Files\\App.EXE", "c:\\program files\\app.exe"));
    assert!(!eq_ignore_ascii_case("Äpp", "äpp"));
    assert!(!eq_ignore_ascii_case("app", "apps"));
    assert!(eq_ignore_ascii_case("", ""));
}

#[test]
fn substring_search() {
    let hay = to_chars("project hub dock");
    assert!(contains_chars(&hay, &to_chars("hub")));
    assert!(contains_chars(&hay, &to_chars("")));
    assert!(contains_chars(&hay, &to_chars("project hub dock")));
    assert!(!contains_chars(&hay, &to_chars("docks")));
    assert!(!contains_chars(&to_chars(""), &to_chars("a")));
}

#[test]
fn chars_round_trip() {
    assert_eq!(to_chars("añb"), vec!['a', 'ñ', 'b']);
}
