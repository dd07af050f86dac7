use rex_core::color::{ansi, cyan, dim, green, magenta, red, yellow};

#[test]
fn colors_wrap_in_escapes() {
    assert_eq!(red("x", true), "\x1b[31mx\x1b[0m");
    assert_eq!(green("ok", true), "\x1b[32mok\x1b[0m");
    assert_eq!(yellow("w", true), "\x1b[33mw\x1b[0m");
    assert_eq!(cyan("c", true), "\x1b[36mc\x1b[0m");
    assert_eq!(magenta("m", true), "\x1b[35mm\x1b[0m");
    assert_eq!(dim("d", true), "\x1b[2md\x1b[0m");
    assert_eq!(ansi("1", "b", true), "\x1b[1mb\x1b[0m");
}

#[test]
fn colors_off_leave_text() {
    assert_eq!(red("x", false), "x");
    assert_eq!(dim("", false), "");
    assert_eq!(ansi("31", "plain", false), "plain");
}
