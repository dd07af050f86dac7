//! ANSI color helpers for terminal output. Whether to color at all is the
//! caller's decision (a terminal, and no `NO_COLOR` in the environment).

use vstd::prelude::*;
use crate::text::{push_str, str_to_string};

verus! {

/// `s` wrapped in the ANSI escape of `code` when `color`, else `s` itself.
pub open spec fn ansi_v(code: Seq<char>, s: Seq<char>, color: bool) -> Seq<char> {
    if color {
        "\x1b["@ + code + "m"@ + s + "\x1b[0m"@
    } else {
        s
    }
}

/// Wraps `s` in the ANSI escape of `code` when `color`.
pub fn ansi(code: &str, s: &str, color: bool) -> (r: String)
    ensures
        r@ == ansi_v(code@, s@, color),
{
    if color {
        let mut out = str_to_string("\x1b[");
        push_str(&mut out, code);
        push_str(&mut out, "m");
        push_str(&mut out, s);
        push_str(&mut out, "\x1b[0m");
        out
    } else {
        str_to_string(s)
    }
}

/// `s` in red.
pub fn red(s: &str, color: bool) -> (r: String)
    ensures
        r@ == ansi_v("31"@, s@, color),
{
    ansi("31", s, color)
}

/// `s` in green.
pub fn green(s: &str, color: bool) -> (r: String)
    ensures
        r@ == ansi_v("32"@, s@, color),
{
    ansi("32", s, color)
}

/// `s` in yellow.
pub fn yellow(s: &str, color: bool) -> (r: String)
    ensures
        r@ == ansi_v("33"@, s@, color),
{
    ansi("33", s, color)
}

/// `s` in cyan.
pub fn cyan(s: &str, color: bool) -> (r: String)
    ensures
        r@ == ansi_v("36"@, s@, color),
{
    ansi("36", s, color)
}

/// `s` in magenta.
pub fn magenta(s: &str, color: bool) -> (r: String)
    ensures
        r@ == ansi_v("35"@, s@, color),
{
    ansi("35", s, color)
}

/// `s` dimmed.
pub fn dim(s: &str, color: bool) -> (r: String)
    ensures
        r@ == ansi_v("2"@, s@, color),
{
    ansi("2", s, color)
}

} // verus!
