use rex_core::literal::unescape;

#[test]
fn simple_escapes() {
    assert_eq!(unescape(r#"a\nb\tc\rd"#), "a\nb\tc\rd");
    assert_eq!(unescape(r#"\\ \" \' \/"#), "\\ \" ' /");
    assert_eq!(unescape(r#"\b\f\0"#), "\u{08}\u{0C}\0");
    assert_eq!(unescape("plain"), "plain");
    assert_eq!(unescape(""), "");
}

#[test]
fn hex_and_unicode_escapes() {
    assert_eq!(unescape(r#"\x41\x62"#), "Ab");
    assert_eq!(unescape(r#"\u00e9t\u00E9"#), "été");
    assert_eq!(unescape(r#"\u20AC!"#), "€!");
    // Not hex: the escape and its digits are dropped.
    assert_eq!(unescape(r#"\xzz-"#), "-");
    // A surrogate is no character: dropped.
    assert_eq!(unescape(r#"\ud800x"#), "x");
    // Short at the end: what is there is read.
    assert_eq!(unescape(r#"\x4"#), "\u{4}");
    assert_eq!(unescape(r#"\x+f"#), "\u{f}");
}

#[test]
fn unknown_escapes_and_trailing_backslash() {
    assert_eq!(unescape(r#"\q"#), "\\q");
    assert_eq!(unescape("end\\"), "end\\");
}
