//! JSON output of decoded values: compact, or pretty with two-space
//! indentation.

use vstd::prelude::*;
use crate::layout::pad;
use crate::text::{chars_slice_to_string, push_char, push_chars, push_str, str_chars};
use crate::value::{decimal, hex_digits, int_text, push_decimal, push_hex, push_int};

verus! {

/// A decoded value, as far as JSON output reads it: integers, decimals
/// (`sig` times ten to the `exp`), strings, named references (`true`,
/// `null` and the like), arrays, objects, and any other kind by its
/// debugging text.
pub enum Encoded {
    Integer(i64),
    Decimal { sig: i64, exp: i64 },
    Str(String),
    Ref(String),
    Array(Vec<Encoded>),
    Object(Vec<(Encoded, Encoded)>),
    Other(String),
}

/// `n` zeros.
pub open spec fn zeros(n: int) -> Seq<char> {
    Seq::new(if n > 0 { n as nat } else { 0 }, |i: int| '0')
}

/// A decimal `sig` times ten to the `exp` in decimal notation.
pub open spec fn decimal_text(sig: int, exp: int) -> Seq<char> {
    if exp >= 0 {
        int_text(sig) + zeros(exp)
    } else {
        let a = -exp;
        let s = decimal((if sig < 0 { -sig } else { sig }) as nat);
        let sign = if sig < 0 { seq!['-'] } else { Seq::empty() };
        if s.len() <= a {
            sign + "0."@ + zeros(a - s.len()) + s
        } else {
            sign + s.take(s.len() - a) + seq!['.'] + s.skip(s.len() - a)
        }
    }
}

/// Whether `c` is a control character (general category Cc, which
/// `char::is_control` tests).
pub open spec fn is_control_char(c: char) -> bool {
    c <= '\u{1f}' || ('\u{7f}' <= c && c <= '\u{9f}')
}

/// One character of a JSON string, escaped.
pub open spec fn escape_char(c: char) -> Seq<char> {
    if c == '"' {
        "\\\""@
    } else if c == '\\' {
        "\\\\"@
    } else if c == '\n' {
        "\\n"@
    } else if c == '\t' {
        "\\t"@
    } else if c == '\r' {
        "\\r"@
    } else if is_control_char(c) {
        "\\u"@ + hex_digits((c as u32) as nat, 4)
    } else {
        seq![c]
    }
}

/// The characters of `s`, escaped.
pub open spec fn escape_all(s: Seq<char>) -> Seq<char>
    decreases s.len(),
{
    if s.len() == 0 {
        Seq::empty()
    } else {
        escape_all(s.drop_last()) + escape_char(s.last())
    }
}

/// What a named reference is in JSON.
pub open spec fn ref_json(name: Seq<char>) -> Seq<char> {
    if name == "t"@ {
        "true"@
    } else if name == "f"@ {
        "false"@
    } else if name == "n"@ || name == "no"@ || name == "nan"@ || name == "inf"@ || name == "nif"@ {
        "null"@
    } else {
        "\"'"@ + name + "\""@
    }
}

/// Before an item at `indent` when pretty: a line break and the indentation.
pub open spec fn item_start(pretty: bool, indent: int) -> Seq<char> {
    if pretty {
        seq!['\n'] + pad(indent)
    } else {
        Seq::empty()
    }
}

/// Before the closing bracket of a non-empty container when pretty.
pub open spec fn close_start(pretty: bool, count: int, indent: int) -> Seq<char> {
    if pretty && count > 0 {
        seq!['\n'] + pad(indent)
    } else {
        Seq::empty()
    }
}

/// The JSON text of `v` at indentation level `indent`.
pub open spec fn json_v(v: Encoded, pretty: bool, indent: int) -> Seq<char>
    decreases v, 1int,
{
    match v {
        Encoded::Integer(n) => int_text(n as int),
        Encoded::Decimal { sig, exp } => decimal_text(sig as int, exp as int),
        Encoded::Str(s) => seq!['"'] + escape_all(s@) + seq!['"'],
        Encoded::Ref(name) => ref_json(name@),
        Encoded::Array(items) => seq!['['] + json_items(items@, pretty, indent) + close_start(
            pretty,
            items@.len() as int,
            indent,
        ) + seq![']'],
        Encoded::Object(pairs) => seq!['{'] + json_pairs(pairs@, pretty, indent) + close_start(
            pretty,
            pairs@.len() as int,
            indent,
        ) + seq!['}'],
        Encoded::Other(d) => "\"<"@ + d@ + ">\""@,
    }
}

/// The items of an array at `indent`, separated by commas.
pub open spec fn json_items(xs: Seq<Encoded>, pretty: bool, indent: int) -> Seq<char>
    decreases xs, 0int,
{
    if xs.len() == 0 {
        Seq::empty()
    } else {
        proof {
            assert(decreases_to!(xs => xs.drop_last()));
        }
        json_items(xs.drop_last(), pretty, indent) + (if xs.len() > 1 {
            seq![',']
        } else {
            Seq::empty()
        }) + item_start(pretty, indent + 1) + json_v(xs.last(), pretty, indent + 1)
    }
}

/// The pairs of an object at `indent`: `key:value` (`key: value` when
/// pretty), separated by commas.
pub open spec fn json_pairs(ps: Seq<(Encoded, Encoded)>, pretty: bool, indent: int) -> Seq<char>
    decreases ps, 0int,
{
    if ps.len() == 0 {
        Seq::empty()
    } else {
        proof {
            assert(decreases_to!(ps => ps.drop_last()));
            assert(decreases_to!(ps => ps.last()));
        }
        json_pairs(ps.drop_last(), pretty, indent) + (if ps.len() > 1 {
            seq![',']
        } else {
            Seq::empty()
        }) + item_start(pretty, indent + 1) + json_v(ps.last().0, pretty, indent + 1) + seq![':']
            + (if pretty {
            seq![' ']
        } else {
            Seq::empty()
        }) + json_v(ps.last().1, pretty, indent + 1)
    }
}

/// Whether `v` can be written: no decimal has `i64::MIN` as its
/// significand or exponent (their negation overflows), and containers nest
/// at most `room` deep.
pub open spec fn json_ok(v: Encoded, room: int) -> bool
    decreases v, 1int,
{
    match v {
        Encoded::Decimal { sig, exp } => sig != i64::MIN && exp != i64::MIN,
        Encoded::Array(items) => room > 0 && items_ok(items@, room - 1),
        Encoded::Object(pairs) => room > 0 && pairs_ok(pairs@, room - 1),
        _ => true,
    }
}

/// Whether every item can be written (see `json_ok`).
pub open spec fn items_ok(xs: Seq<Encoded>, room: int) -> bool
    decreases xs, 0int,
{
    if xs.len() == 0 {
        true
    } else {
        proof {
            assert(decreases_to!(xs => xs.drop_last()));
        }
        items_ok(xs.drop_last(), room) && json_ok(xs.last(), room)
    }
}

/// Whether every key and value can be written (see `json_ok`).
pub open spec fn pairs_ok(ps: Seq<(Encoded, Encoded)>, room: int) -> bool
    decreases ps, 0int,
{
    if ps.len() == 0 {
        true
    } else {
        proof {
            assert(decreases_to!(ps => ps.drop_last()));
            assert(decreases_to!(ps => ps.last()));
        }
        pairs_ok(ps.drop_last(), room) && json_ok(ps.last().0, room) && json_ok(ps.last().1, room)
    }
}

/// Appends `n` zeros.
fn push_zeros(out: &mut String, n: i64)
    ensures
        final(out)@ == old(out)@ + zeros(n as int),
{
    let mut k: i64 = 0;
    proof {
        assert(old(out)@ + zeros(0) =~= old(out)@);
    }
    if n <= 0 {
        proof {
            assert(zeros(n as int) =~= zeros(0));
        }
        return;
    }
    while k < n
        invariant
            0 <= k <= n,
            out@ == old(out)@ + zeros(k as int),
        decreases n - k,
    {
        push_char(out, '0');
        proof {
            assert(old(out)@ + zeros(k + 1) =~= (old(out)@ + zeros(k as int)).push('0'));
        }
        k += 1;
    }
}

/// Appends `level` levels of indentation, two spaces each.
fn push_indent(out: &mut String, level: usize)
    ensures
        final(out)@ == old(out)@ + pad(level as int),
{
    let mut k: usize = 0;
    proof {
        assert(old(out)@ + pad(0) =~= old(out)@);
    }
    while k < level
        invariant
            k <= level,
            out@ == old(out)@ + pad(k as int),
        decreases level - k,
    {
        push_str(out, "  ");
        proof {
            reveal_strlit("  ");
            assert(old(out)@ + pad(k + 1) =~= old(out)@ + pad(k as int) + "  "@);
        }
        k += 1;
    }
}

/// Appends `sig` times ten to the `exp` in decimal notation.
fn push_decimal_value(out: &mut String, sig: i64, exp: i64)
    requires
        sig != i64::MIN,
        exp != i64::MIN,
    ensures
        final(out)@ == old(out)@ + decimal_text(sig as int, exp as int),
{
    if exp >= 0 {
        push_int(out, sig);
        push_zeros(out, exp);
        return;
    }
    let a: i64 = -exp;
    let m: u64 = if sig < 0 {
        (-sig) as u64
    } else {
        sig as u64
    };
    let mut digits = String::new();
    push_decimal(&mut digits, m);
    let ds = str_chars(digits.as_str());
    let ghost d = decimal((if sig < 0 { -(sig as int) } else { sig as int }) as nat);
    assert(ds@ =~= d);
    if sig < 0 {
        push_char(out, '-');
    }
    let ghost signed = out@;
    let len = ds.len();
    if (len as u64) <= (a as u64) {
        push_str(out, "0.");
        push_zeros(out, a - len as i64);
        push_chars(out, &ds);
        proof {
            reveal_strlit("0.");
            assert(out@ =~= old(out)@ + decimal_text(sig as int, exp as int));
        }
    } else {
        let cut = len - a as usize;
        let head = chars_slice_to_string(&ds, 0, cut);
        let tail = chars_slice_to_string(&ds, cut, len);
        push_str(out, head.as_str());
        push_char(out, '.');
        push_str(out, tail.as_str());
        proof {
            assert(out@ =~= old(out)@ + decimal_text(sig as int, exp as int));
        }
    }
}

/// Whether `c` is a control character (see `is_control_char`).
fn control_char(c: char) -> (r: bool)
    ensures
        r == is_control_char(c),
{
    c <= '\u{1f}' || ('\u{7f}' <= c && c <= '\u{9f}')
}

/// Appends the characters of `s`, escaped for a JSON string.
fn push_escaped(out: &mut String, s: &str)
    ensures
        final(out)@ == old(out)@ + escape_all(s@),
{
    let cs = str_chars(s);
    let mut i: usize = 0;
    proof {
        assert(cs@.take(0) =~= Seq::<char>::empty());
        assert(old(out)@ + escape_all(Seq::<char>::empty()) =~= old(out)@);
    }
    while i < cs.len()
        invariant
            0 <= i <= cs@.len(),
            cs@ == s@,
            out@ == old(out)@ + escape_all(cs@.take(i as int)),
        decreases cs@.len() - i,
    {
        let c = cs[i];
        let ghost before = out@;
        if c == '"' {
            push_str(out, "\\\"");
        } else if c == '\\' {
            push_str(out, "\\\\");
        } else if c == '\n' {
            push_str(out, "\\n");
        } else if c == '\t' {
            push_str(out, "\\t");
        } else if c == '\r' {
            push_str(out, "\\r");
        } else if control_char(c) {
            push_str(out, "\\u");
            let ghost mid = out@;
            let code: u32 = c as u32;
            push_hex(out, code as u64, 4);
            proof {
                reveal_strlit("\\u");
                assert(out@ =~= before + escape_char(c));
            }
        } else {
            push_char(out, c);
        }
        proof {
            reveal_strlit("\\\"");
            reveal_strlit("\\\\");
            reveal_strlit("\\n");
            reveal_strlit("\\t");
            reveal_strlit("\\r");
            reveal_strlit("\\u");
            assert(cs@.take(i + 1).drop_last() =~= cs@.take(i as int));
            assert(cs@.take(i + 1).last() == c);
            assert(out@ =~= before + escape_char(c));
        }
        i += 1;
    }
    proof {
        assert(cs@.take(cs@.len() as int) =~= cs@);
    }
}

/// Appends the JSON text of a named reference (see `ref_json`).
fn push_ref(out: &mut String, name: &str)
    ensures
        final(out)@ == old(out)@ + ref_json(name@),
{
    proof {
        reveal_strlit("t");
        reveal_strlit("f");
        reveal_strlit("n");
        reveal_strlit("no");
        reveal_strlit("nan");
        reveal_strlit("inf");
        reveal_strlit("nif");
        reveal_strlit("true");
        reveal_strlit("false");
        reveal_strlit("null");
    }
    if crate::text::str_eq(name, "t") {
        push_str(out, "true");
    } else if crate::text::str_eq(name, "f") {
        push_str(out, "false");
    } else if crate::text::str_eq(name, "n") || crate::text::str_eq(name, "no") || crate::text::str_eq(
        name,
        "nan",
    ) || crate::text::str_eq(name, "inf") || crate::text::str_eq(name, "nif") {
        push_str(out, "null");
    } else {
        push_str(out, "\"'");
        push_str(out, name);
        push_str(out, "\"");
    }
}

/// Appends the JSON text of `v` at indentation level `indent` (see
/// `json_v`): compact, or pretty with each item on a line of its own.
#[verifier::rlimit(60)]
pub fn write_json(v: &Encoded, out: &mut String, pretty: bool, indent: usize)
    requires
        json_ok(*v, usize::MAX - indent),
    ensures
        final(out)@ == old(out)@ + json_v(*v, pretty, indent as int),
    decreases v,
{
    match v {
        Encoded::Integer(n) => {
            push_int(out, *n);
        },
        Encoded::Decimal { sig, exp } => {
            push_decimal_value(out, *sig, *exp);
        },
        Encoded::Str(s) => {
            push_char(out, '"');
            push_escaped(out, s.as_str());
            push_char(out, '"');
            proof {
                assert(out@ =~= old(out)@ + json_v(*v, pretty, indent as int));
            }
        },
        Encoded::Ref(name) => {
            push_ref(out, name.as_str());
        },
        Encoded::Array(items) => {
            push_char(out, '[');
            let ghost start = out@;
            let mut i: usize = 0;
            proof {
                assert(items@.take(0) =~= Seq::<Encoded>::empty());
                assert(start + json_items(Seq::<Encoded>::empty(), pretty, indent as int) =~= start);
            }
            while i < items.len()
                invariant
                    0 <= i <= items@.len(),
                    out@ == start + json_items(items@.take(i as int), pretty, indent as int),
                    items_ok(items@.take(i as int), usize::MAX - indent - 1),
                    items_ok(items@, usize::MAX - indent - 1),
                    indent < usize::MAX,
                    *v == Encoded::Array(*items),
                decreases items@.len() - i,
            {
                let ghost before = out@;
                proof {
                    assert(items@.take(i + 1).drop_last() =~= items@.take(i as int));
                    assert(items@.take(i + 1).last() == items@[i as int]);
                    lemma_items_ok(items@, usize::MAX - indent - 1, i as int);
                    assert(*v == Encoded::Array(*items));
                    assert(decreases_to!(*v => v->Array_0));
                    assert(decreases_to!(v->Array_0 => items@));
                    assert(decreases_to!(items@ => items@[i as int]));
                }
                if i > 0 {
                    push_char(out, ',');
                }
                if pretty {
                    push_char(out, '\n');
                    push_indent(out, indent + 1);
                }
                let ghost mid = out@;
                write_json(&items[i], out, pretty, indent + 1);
                proof {
                    assert(out@ =~= before + ((if i + 1 > 1 {
                        seq![',']
                    } else {
                        Seq::empty()
                    }) + item_start(pretty, indent + 1) + json_v(items@[i as int], pretty, indent + 1)));
                }
                i += 1;
            }
            proof {
                assert(items@.take(items@.len() as int) =~= items@);
            }
            if pretty && items.len() > 0 {
                push_char(out, '\n');
                push_indent(out, indent);
            }
            push_char(out, ']');
            proof {
                assert(out@ =~= old(out)@ + json_v(*v, pretty, indent as int));
            }
        },
        Encoded::Object(pairs) => {
            push_char(out, '{');
            let ghost start = out@;
            let mut i: usize = 0;
            proof {
                assert(pairs@.take(0) =~= Seq::<(Encoded, Encoded)>::empty());
                assert(start + json_pairs(Seq::<(Encoded, Encoded)>::empty(), pretty, indent as int) =~= start);
            }
            while i < pairs.len()
                invariant
                    0 <= i <= pairs@.len(),
                    out@ == start + json_pairs(pairs@.take(i as int), pretty, indent as int),
                    pairs_ok(pairs@, usize::MAX - indent - 1),
                    indent < usize::MAX,
                    *v == Encoded::Object(*pairs),
                decreases pairs@.len() - i,
            {
                let ghost before = out@;
                proof {
                    assert(pairs@.take(i + 1).drop_last() =~= pairs@.take(i as int));
                    assert(pairs@.take(i + 1).last() == pairs@[i as int]);
                    lemma_pairs_ok(pairs@, usize::MAX - indent - 1, i as int);
                    assert(*v == Encoded::Object(*pairs));
                    assert(decreases_to!(*v => v->Object_0));
                    assert(decreases_to!(v->Object_0 => pairs@));
                    assert(decreases_to!(pairs@ => pairs@[i as int]));
                    assert(decreases_to!(pairs@[i as int] => pairs@[i as int].0));
                    assert(decreases_to!(pairs@[i as int] => pairs@[i as int].1));
                }
                if i > 0 {
                    push_char(out, ',');
                }
                if pretty {
                    push_char(out, '\n');
                    push_indent(out, indent + 1);
                }
                let ghost a = out@;
                write_json(&pairs[i].0, out, pretty, indent + 1);
                let ghost b = out@;
                push_char(out, ':');
                if pretty {
                    push_char(out, ' ');
                }
                let ghost c = out@;
                write_json(&pairs[i].1, out, pretty, indent + 1);
                proof {
                    let sep: Seq<char> = if i + 1 > 1 {
                        seq![',']
                    } else {
                        Seq::empty()
                    };
                    let colon: Seq<char> = seq![':'] + (if pretty {
                        seq![' ']
                    } else {
                        Seq::empty()
                    });
                    let kj = json_v(pairs@[i as int].0, pretty, indent + 1);
                    let vj = json_v(pairs@[i as int].1, pretty, indent + 1);
                    assert(a =~= before + sep + item_start(pretty, indent + 1));
                    assert(b == a + kj);
                    assert(c =~= b + colon);
                    assert(out@ == c + vj);
                    let piece = sep + item_start(pretty, indent + 1) + kj + seq![':'] + (if pretty {
                        seq![' ']
                    } else {
                        Seq::empty()
                    }) + vj;
                    assert(out@ =~= before + piece);
                    assert(json_pairs(pairs@.take(i + 1), pretty, indent as int) =~= json_pairs(
                        pairs@.take(i as int),
                        pretty,
                        indent as int,
                    ) + piece);
                }
                i += 1;
            }
            proof {
                assert(pairs@.take(pairs@.len() as int) =~= pairs@);
            }
            if pretty && pairs.len() > 0 {
                push_char(out, '\n');
                push_indent(out, indent);
            }
            push_char(out, '}');
            proof {
                assert(out@ =~= old(out)@ + json_v(*v, pretty, indent as int));
            }
        },
        Encoded::Other(d) => {
            push_str(out, "\"<");
            push_str(out, d.as_str());
            push_str(out, ">\"");
            proof {
                reveal_strlit("\"<");
                reveal_strlit(">\"");
            }
        },
    }
}

/// Every item of a writable array is writable.
proof fn lemma_items_ok(xs: Seq<Encoded>, room: int, i: int)
    requires
        items_ok(xs, room),
        0 <= i < xs.len(),
    ensures
        json_ok(xs[i], room),
        items_ok(xs.take(i + 1), room),
    decreases xs.len(),
{
    if i < xs.len() - 1 {
        lemma_items_ok(xs.drop_last(), room, i);
        assert(xs.drop_last()[i] == xs[i]);
        assert(xs.drop_last().take(i + 1) =~= xs.take(i + 1));
    } else {
        assert(xs.take(i + 1) =~= xs);
    }
}

/// Every key and value of a writable object is writable.
proof fn lemma_pairs_ok(ps: Seq<(Encoded, Encoded)>, room: int, i: int)
    requires
        pairs_ok(ps, room),
        0 <= i < ps.len(),
    ensures
        json_ok(ps[i].0, room),
        json_ok(ps[i].1, room),
    decreases ps.len(),
{
    if i < ps.len() - 1 {
        lemma_pairs_ok(ps.drop_last(), room, i);
        assert(ps.drop_last()[i] == ps[i]);
    }
}

/// The JSON text of `value`, followed by a line break when pretty.
pub fn value_to_json(value: &Encoded, pretty: bool) -> (r: String)
    requires
        json_ok(*value, usize::MAX as int),
    ensures
        r@ == json_v(*value, pretty, 0) + (if pretty {
            seq!['\n']
        } else {
            Seq::<char>::empty()
        }),
{
    let mut out = String::new();
    write_json(value, &mut out, pretty, 0);
    if pretty {
        push_char(&mut out, '\n');
    }
    proof {
        assert(out@ =~= json_v(*value, pretty, 0) + (if pretty {
            seq!['\n']
        } else {
            Seq::<char>::empty()
        }));
    }
    out
}

} // verus!
