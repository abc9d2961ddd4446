use rumgap::text::{is_whitespace, same_text, starts_with, strip_prefix, trim, utf8_len_below};

#[test]
fn trim_matches_std() {
    for s in ["", "   ", "  a b  ", "\u{3000}x\u{85}", "\t\nword\r", "x"] {
        assert_eq!(trim(s), s.trim());
    }
}

#[test]
fn whitespace_matches_std() {
    for c in [' ', '\t', '\u{a0}', '\u{2028}', 'a', '_', '\u{200b}', '\u{3000}'] {
        assert_eq!(is_whitespace(c), c.is_whitespace(), "{c:?}");
    }
}

#[test]
fn prefixes_and_equality() {
    assert!(starts_with("Bearer x", "Bearer "));
    assert!(!starts_with("Bear", "Bearer "));
    assert_eq!(strip_prefix("Bearer x", "Bearer "), Some("x"));
    assert_eq!(strip_prefix("x", "Bearer "), None);
    assert!(same_text("png", "png"));
    assert!(!same_text("png", "pn"));
}

#[test]
fn utf8_lengths() {
    assert!(utf8_len_below("abc", 4));
    assert!(!utf8_len_below("abcd", 4));
    assert!(!utf8_len_below("éé", 4));
    assert!(utf8_len_below("é", 3));
    assert!(!utf8_len_below("", 0));
}
