use es_module_lexer::unescape;

fn decoded(s: &str) -> Option<String> {
    unescape(s).ok().map(|t| t.as_str().to_string())
}

#[test]
fn plain_text_is_borrowed_unchanged() {
    let s = "./foo/bar.js";
    let t = unescape(s).unwrap();
    assert!(t.is_borrowed());
    assert_eq!(t.as_str(), s);
    assert!(std::ptr::eq(t.as_str(), s));
}

#[test]
fn empty_text_is_borrowed() {
    let t = unescape("").unwrap();
    assert!(t.is_borrowed());
    assert_eq!(t.as_str(), "");
}

#[test]
fn trailing_backslash_is_kept() {
    let t = unescape("ab\\").unwrap();
    assert!(t.is_borrowed());
    assert_eq!(t.as_str(), "ab\\");
}

#[test]
fn escaped_text_is_owned() {
    let t = unescape("a\\nb").unwrap();
    assert!(!t.is_borrowed());
    assert_eq!(t.as_str(), "a\nb");
}

#[test]
fn single_character_escapes() {
    assert_eq!(decoded("\\n\\r\\t\\b\\v\\f").as_deref(), Some("\n\r\t\u{8}\u{b}\u{c}"));
    assert_eq!(decoded("\\'\\\"\\\\").as_deref(), Some("'\"\\"));
    assert_eq!(decoded("\\q").as_deref(), Some("q"));
    assert_eq!(decoded("\\\u{a9}").as_deref(), Some("\u{a9}"));
}

#[test]
fn hex_escapes() {
    assert_eq!(decoded("./\\x61\\x62\\x63.js").as_deref(), Some("./abc.js"));
    assert_eq!(decoded("\\xA9").as_deref(), Some("\u{a9}"));
    assert_eq!(decoded("\\x4").as_deref(), None);
    assert_eq!(decoded("\\x4g").as_deref(), None);
}

#[test]
fn unicode_escapes() {
    assert_eq!(decoded("\\u0041").as_deref(), Some("A"));
    assert_eq!(decoded("\\u00a9x").as_deref(), Some("\u{a9}x"));
    assert_eq!(decoded("./\\u{20204}.js").as_deref(), Some("./\u{20204}.js"));
    assert_eq!(decoded("\\u{41}").as_deref(), Some("A"));
    assert_eq!(decoded("\\u{0000041}").as_deref(), Some("A"));
    assert_eq!(decoded("\\u{10FFFF}").as_deref(), Some("\u{10FFFF}"));
}

#[test]
fn malformed_unicode_escapes_fail() {
    assert_eq!(decoded("\\u{}"), None);
    assert_eq!(decoded("\\u{110000}"), None);
    assert_eq!(decoded("\\u{41"), None);
    assert_eq!(decoded("\\u{4g}"), None);
    assert_eq!(decoded("\\uD800"), None);
    assert_eq!(decoded("\\u004"), None);
    assert_eq!(decoded("\\u"), None);
}

#[test]
fn octal_escapes() {
    assert_eq!(decoded("./\\251.js").as_deref(), Some("./\u{a9}.js"));
    assert_eq!(decoded("\\0").as_deref(), Some("\u{0}"));
    assert_eq!(decoded("\\101").as_deref(), Some("A"));
    assert_eq!(decoded("\\1012").as_deref(), Some("A2"));
    assert_eq!(decoded("\\477").as_deref(), Some("'7"));
    assert_eq!(decoded("\\377").as_deref(), Some("\u{ff}"));
}

#[test]
fn octal_escape_before_eight_or_nine_fails() {
    assert_eq!(decoded("\\08"), None);
    assert_eq!(decoded("\\19"), None);
    assert_eq!(decoded("\\1018"), None);
}

#[test]
fn line_continuations_vanish() {
    assert_eq!(decoded("./foo\\\n.js").as_deref(), Some("./foo.js"));
    assert_eq!(decoded("./foo\\\r.js").as_deref(), Some("./foo.js"));
    assert_eq!(decoded("./foo\\\r\n.js").as_deref(), Some("./foo.js"));
}

#[test]
fn underscore_between_digits_is_skipped() {
    assert_eq!(decoded("\\x4_1").as_deref(), Some("A"));
    assert_eq!(decoded("\\u00_41").as_deref(), Some("A"));
    assert_eq!(decoded("\\u{1_F600}").as_deref(), Some("\u{1F600}"));
}

#[test]
fn misplaced_underscore_fails() {
    assert_eq!(decoded("\\x4__1"), None);
    assert_eq!(decoded("\\x_41"), None);
    assert_eq!(decoded("\\x4_"), None);
    assert_eq!(decoded("\\u{1__F600}"), None);
    assert_eq!(decoded("\\u{_41}"), None);
    assert_eq!(decoded("\\u{41_}"), None);
}

#[test]
fn one_malformed_escape_fails_the_whole_literal() {
    assert_eq!(decoded("\\x61\\xZZ"), None);
}
