use promptree::{is_likely_text, looks_binary};

#[test]
fn known_text_extensions() {
    assert!(is_likely_text("src/main.rs"));
    assert!(is_likely_text("a/b/readme.MD"));
    assert!(is_likely_text("conf.TOML"));
}

#[test]
fn known_binary_extensions() {
    assert!(!is_likely_text("logo.png"));
    assert!(!is_likely_text("a/b/archive.ZIP"));
    assert!(!is_likely_text("lib.so"));
}

#[test]
fn special_names_are_text() {
    assert!(is_likely_text("LICENSE"));
    assert!(is_likely_text("sub/Makefile"));
    assert!(is_likely_text("Dockerfile"));
    assert!(is_likely_text("readme"));
}

#[test]
fn unknown_defaults_to_text() {
    assert!(is_likely_text("data.weirdext"));
    assert!(is_likely_text("noextension"));
}

#[test]
fn nul_byte_is_binary() {
    assert!(looks_binary("abc\0def"));
}

#[test]
fn control_ratio_is_binary() {
    // two control characters in a text of nine: over ten percent
    assert!(looks_binary("ab\u{1}\u{2}cdefg"));
    // one control character in a text of eleven: ten percent or less
    assert!(!looks_binary("ab\u{1}cdefghij"));
}

#[test]
fn plain_text_is_not_binary() {
    assert!(!looks_binary("hello\nworld\r\n\ttabbed"));
    assert!(!looks_binary(""));
}
