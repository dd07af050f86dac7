//! Escape sequences of string literals.

use vstd::prelude::*;
use crate::text::{push_char, str_chars};

verus! {

/// Whether `n` is a Unicode scalar value (a code point that is not a
/// surrogate).
pub open spec fn is_scalar(n: u32) -> bool {
    n < 0xD800 || (0xE000 <= n && n <= 0x10FFFF)
}

/// The character with code `n` (`char::from_u32`).
///
/// Trusted: the contract claims what the documentation of `char::from_u32`
/// says: `Some` exactly for Unicode scalar values, holding that code.
#[verifier::external_body]
fn char_from_u32(n: u32) -> (r: Option<char>)
    ensures
        match r {
            Option::Some(c) => is_scalar(n) && c == n as char,
            Option::None => !is_scalar(n),
        },
{
    char::from_u32(n)
}

/// The value of a hexadecimal digit character.
pub open spec fn hex_char_value(c: char) -> Option<u32> {
    if '0' <= c && c <= '9' {
        Option::Some((c as u32 - '0' as u32) as u32)
    } else if 'a' <= c && c <= 'f' {
        Option::Some((c as u32 - 'a' as u32 + 10) as u32)
    } else if 'A' <= c && c <= 'F' {
        Option::Some((c as u32 - 'A' as u32 + 10) as u32)
    } else {
        Option::None
    }
}

/// The number written by hexadecimal digits.
pub open spec fn hex_number(s: Seq<char>) -> int
    decreases s.len(),
{
    if s.len() == 0 {
        0
    } else {
        hex_number(s.drop_last()) * 16 + match hex_char_value(s.last()) {
            Option::Some(v) => v as int,
            Option::None => 0,
        }
    }
}

/// What `u32::from_str_radix(s, 16)` gives for up to four characters: an
/// optional `+` and then one or more hexadecimal digits.
pub open spec fn radix16(s: Seq<char>) -> Option<int> {
    if sign_stripped(s).len() > 0 && all_hex(sign_stripped(s)) {
        Option::Some(hex_number(sign_stripped(s)))
    } else {
        Option::None
    }
}

/// `s` without a leading `+`.
pub open spec fn sign_stripped(s: Seq<char>) -> Seq<char> {
    if s.len() > 0 && s[0] == '+' {
        s.drop_first()
    } else {
        s
    }
}

/// Whether every character of `s` is a hexadecimal digit.
pub open spec fn all_hex(s: Seq<char>) -> bool {
    forall|i: int| 0 <= i < s.len() ==> (#[trigger] hex_char_value(s[i])) is Some
}

/// The character for a `\x` or `\u` escape: the code that `hex` spells,
/// when it is a scalar value; nothing otherwise.
pub open spec fn escaped_code(hex: Seq<char>) -> Seq<char> {
    match radix16(hex) {
        Option::Some(n) => if 0 <= n <= u32::MAX && is_scalar(n as u32) {
            seq![n as u32 as char]
        } else {
            Seq::empty()
        },
        Option::None => Seq::empty(),
    }
}

/// The character a simple escape `\c` stands for.
pub open spec fn simple_escape(c: char) -> Option<char> {
    if c == 'n' {
        Option::Some('\n')
    } else if c == 't' {
        Option::Some('\t')
    } else if c == 'r' {
        Option::Some('\r')
    } else if c == '\\' {
        Option::Some('\\')
    } else if c == '"' {
        Option::Some('"')
    } else if c == '\'' {
        Option::Some('\'')
    } else if c == '/' {
        Option::Some('/')
    } else if c == 'b' {
        Option::Some('\u{08}')
    } else if c == 'f' {
        Option::Some('\u{0C}')
    } else if c == '0' {
        Option::Some('\0')
    } else {
        Option::None
    }
}

/// The text of a literal body with its escapes resolved: `\n`, `\t`, `\r`,
/// `\\`, `\"`, `\'`, `\/`, `\b`, `\f`, `\0`; `\x` with two and `\u` with four
/// hex digits (dropped when they do not spell a character); any other
/// escaped character kept with its backslash; a trailing backslash kept.
pub open spec fn unescaped(s: Seq<char>) -> Seq<char>
    decreases s.len(),
{
    if s.len() == 0 {
        Seq::empty()
    } else if s[0] != '\\' {
        seq![s[0]] + unescaped(s.drop_first())
    } else if s.len() == 1 {
        seq!['\\']
    } else {
        let c = s[1];
        let rest = s.subrange(2, s.len() as int);
        if simple_escape(c) is Some {
            seq![simple_escape(c)->0] + unescaped(rest)
        } else if c == 'x' || c == 'u' {
            let k: int = if c == 'x' {
                2
            } else {
                4
            };
            let n = if rest.len() < k {
                rest.len() as int
            } else {
                k
            };
            escaped_code(rest.take(n)) + unescaped(rest.skip(n))
        } else {
            seq!['\\', c] + unescaped(rest)
        }
    }
}

fn hex_char(c: char) -> (r: Option<u32>)
    ensures
        r == hex_char_value(c),
{
    if '0' <= c && c <= '9' {
        Option::Some(c as u32 - '0' as u32)
    } else if 'a' <= c && c <= 'f' {
        Option::Some(c as u32 - 'a' as u32 + 10)
    } else if 'A' <= c && c <= 'F' {
        Option::Some(c as u32 - 'A' as u32 + 10)
    } else {
        Option::None
    }
}

proof fn lemma_hex_number_bound(s: Seq<char>)
    requires
        forall|i: int| 0 <= i < s.len() ==> (#[trigger] hex_char_value(s[i])) is Some,
    ensures
        0 <= hex_number(s) < pow16(s.len()),
    decreases s.len(),
{
    if s.len() > 0 {
        assert forall|i: int| 0 <= i < s.drop_last().len() implies (#[trigger] hex_char_value(
            s.drop_last()[i],
        )) is Some by {
            assert(s.drop_last()[i] == s[i]);
        }
        lemma_hex_number_bound(s.drop_last());
        assert(hex_char_value(s[s.len() - 1]) is Some);
    }
}

pub open spec fn pow16(n: nat) -> int
    decreases n,
{
    if n == 0 {
        1
    } else {
        16 * pow16((n - 1) as nat)
    }
}

/// `u32::from_str_radix(s, 16)` for the up to four characters of an escape.
fn parse_hex(s: &Vec<char>) -> (r: Option<u32>)
    requires
        s@.len() <= 4,
    ensures
        match r {
            Option::Some(n) => radix16(s@) == Option::Some(n as int),
            Option::None => radix16(s@) is None,
        },
{
    let ghost digits = sign_stripped(s@);
    let start: usize = if s.len() > 0 && s[0] == '+' {
        1
    } else {
        0
    };
    if start >= s.len() {
        return Option::None;
    }
    let mut n: u32 = 0;
    let mut i = start;
    proof {
        assert(digits =~= s@.subrange(start as int, s@.len() as int));
        assert(s@.subrange(start as int, start as int) =~= Seq::<char>::empty());
    }
    while i < s.len()
        invariant
            start <= i <= s@.len(),
            s@.len() <= 4,
            digits == s@.subrange(start as int, s@.len() as int),
            digits == sign_stripped(s@),
            forall|j: int| start <= j < i ==> (#[trigger] hex_char_value(s@[j])) is Some,
            n == hex_number(s@.subrange(start as int, i as int)),
            n < pow16((i - start) as nat),
        decreases s@.len() - i,
    {
        let ghost prefix = s@.subrange(start as int, i as int);
        proof {
            assert(s@.subrange(start as int, i + 1).drop_last() =~= prefix);
            assert(s@.subrange(start as int, i + 1).last() == s@[i as int]);
            assert(pow16((i + 1 - start) as nat) == 16 * pow16((i - start) as nat));
            assert(pow16(0) == 1);
            assert(pow16(1) == 16);
            assert(pow16(2) == 256);
            assert(pow16(3) == 4096);
            assert(pow16(4) == 65536);
            assert((i - start) <= 3);
        }
        match hex_char(s[i]) {
            Option::Some(v) => {
                n = n * 16 + v;
            },
            Option::None => {
                proof {
                    assert(digits[i - start] == s@[i as int]);
                    assert(hex_char_value(digits[i - start]) is None);
                }
                return Option::None;
            },
        }
        i += 1;
    }
    proof {
        assert forall|j: int| 0 <= j < digits.len() implies (#[trigger] hex_char_value(digits[j]))
            is Some by {
            assert(digits[j] == s@[start + j]);
        }
    }
    Option::Some(n)
}

/// Resolves the escape sequences of a string literal's body.
pub fn unescape(s: &str) -> (r: String)
    ensures
        r@ == unescaped(s@),
{
    let cs = str_chars(s);
    let n = cs.len();
    let ghost all = cs@;
    let mut out = String::new();
    let mut i: usize = 0;
    proof {
        assert(all.subrange(0, n as int) =~= all);
        assert(Seq::<char>::empty() + unescaped(all) =~= unescaped(all));
    }
    while i < n
        invariant
            cs@ == all,
            n == all.len(),
            0 <= i <= n,
            out@ + unescaped(all.subrange(i as int, n as int)) == unescaped(all),
        decreases n - i,
    {
        let ghost rest0 = all.subrange(i as int, n as int);
        let ghost before = out@;
        let c = cs[i];
        if c != '\\' {
            push_char(&mut out, c);
            proof {
                assert(rest0.drop_first() =~= all.subrange(i + 1, n as int));
                assert(before + (seq![c] + unescaped(all.subrange(i + 1, n as int))) =~= out@
                    + unescaped(all.subrange(i + 1, n as int)));
            }
            i += 1;
        } else if i + 1 >= n {
            push_char(&mut out, '\\');
            proof {
                assert(all.subrange(n as int, n as int) =~= Seq::<char>::empty());
                assert(out@ + Seq::<char>::empty() =~= out@);
            }
            i = n;
        } else {
            let e = cs[i + 1];
            let ghost rest = all.subrange(i + 2, n as int);
            proof {
                assert(rest0.subrange(2, rest0.len() as int) =~= rest);
                assert(rest0[1] == e);
            }
            let simple: Option<char> = if e == 'n' {
                Option::Some('\n')
            } else if e == 't' {
                Option::Some('\t')
            } else if e == 'r' {
                Option::Some('\r')
            } else if e == '\\' {
                Option::Some('\\')
            } else if e == '"' {
                Option::Some('"')
            } else if e == '\'' {
                Option::Some('\'')
            } else if e == '/' {
                Option::Some('/')
            } else if e == 'b' {
                Option::Some('\u{08}')
            } else if e == 'f' {
                Option::Some('\u{0C}')
            } else if e == '0' {
                Option::Some('\0')
            } else {
                Option::None
            };
            match simple {
                Option::Some(ch) => {
                    push_char(&mut out, ch);
                    proof {
                        assert(before + (seq![ch] + unescaped(rest)) =~= out@ + unescaped(rest));
                    }
                    i += 2;
                },
                Option::None => {
                    if e == 'x' || e == 'u' {
                        let k: usize = if e == 'x' {
                            2
                        } else {
                            4
                        };
                        let avail = n - (i + 2);
                        let take = if avail < k {
                            avail
                        } else {
                            k
                        };
                        let hex = crate::lexer::slice_chars(&cs, i + 2, i + 2 + take);
                        proof {
                            assert(hex@ =~= rest.take(take as int));
                            assert(rest.skip(take as int) =~= all.subrange(i + 2 + take, n as int));
                        }
                        match parse_hex(&hex) {
                            Option::Some(code) => match char_from_u32(code) {
                                Option::Some(ch) => {
                                    push_char(&mut out, ch);

                                },
                                Option::None => {},
                            },
                            Option::None => {},
                        }
                        proof {
                            let esc = escaped_code(rest.take(take as int));
                            assert(out@ =~= before + esc);
                            assert(before + (esc + unescaped(rest.skip(take as int))) =~= out@
                                + unescaped(rest.skip(take as int)));
                        }
                        i = i + 2 + take;
                    } else {
                        push_char(&mut out, '\\');
                        push_char(&mut out, e);
                        proof {
                            assert(before + (seq!['\\', e] + unescaped(rest)) =~= out@ + unescaped(
                                rest,
                            ));
                        }
                        i += 2;
                    }
                },
            }
        }
    }
    proof {
        assert(all.subrange(n as int, n as int) =~= Seq::<char>::empty());
        assert(out@ + Seq::<char>::empty() =~= out@);
    }
    out
}

} // verus!
