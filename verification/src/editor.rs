//! Helpers of the editor integration: type rendering for hovers, with
//! named aliases for nested structural types.

use vstd::prelude::*;
use vstd::string::StringSliceAdditionalSpecFns;
use crate::text::{push_char, push_str, str_eq};
use crate::types::{
    Type, TypeV, field_views, join_v, lemma_join_push, lemma_view_shapes, type_eq, views,
    wildcard_view,
};

verus! {

/// Whether no two of `aliases` have the same name, as in a map from names
/// to types.
pub open spec fn distinct_names(aliases: Seq<(Seq<char>, TypeV)>) -> bool {
    forall|i: int, j: int| 0 <= i < j < aliases.len() ==> aliases[i].0 != aliases[j].0
}

/// How many of `aliases` name exactly the type `ty`.
pub open spec fn alias_matches(ty: TypeV, aliases: Seq<(Seq<char>, TypeV)>) -> nat
    decreases aliases.len(),
{
    if aliases.len() == 0 {
        0
    } else {
        alias_matches(ty, aliases.drop_last()) + if aliases.last().1 == ty {
            1nat
        } else {
            0nat
        }
    }
}

/// The name of the last alias of `ty` (the only one, where exactly one matches).
pub open spec fn alias_name(ty: TypeV, aliases: Seq<(Seq<char>, TypeV)>) -> Seq<char>
    decreases aliases.len(),
{
    if aliases.len() == 0 {
        Seq::empty()
    } else if aliases.last().1 == ty {
        aliases.last().0
    } else {
        alias_name(ty, aliases.drop_last())
    }
}

/// The rendering of a type for hovers. At the top level the type is
/// written out structurally; in nested positions a type that exactly one
/// alias names is written as that alias.
pub open spec fn fmt_alias_v(t: TypeV, aliases: Seq<(Seq<char>, TypeV)>, top: bool) -> Seq<char>
    decreases t,
{
    if !top && alias_matches(t, aliases) == 1 {
        alias_name(t, aliases)
    } else {
        match t {
            TypeV::SomeType => "some"@,
            TypeV::NoneType => "none"@,
            TypeV::Never => "never"@,
            TypeV::Null => "null"@,
            TypeV::Bool => "bool"@,
            TypeV::Int => "int"@,
            TypeV::Num => "num"@,
            TypeV::Str => "str"@,
            TypeV::LiteralStr(s) => seq!['"'] + s + seq!['"'],
            TypeV::Array(e) => seq!['['] + fmt_alias_v(*e, aliases, false) + seq![']'],
            TypeV::Object { fields, wildcard } => {
                let fp = fmt_alias_fields(fields, aliases);
                let parts = match wildcard {
                    Option::Some(w) => fp.push("*: "@ + fmt_alias_v(*w, aliases, false)),
                    Option::None => fp,
                };
                seq!['{'] + join_v(parts, ", "@) + seq!['}']
            },
            TypeV::Union(ts) => join_v(fmt_alias_all(ts, aliases), " | "@),
            TypeV::Intersection(ts) => join_v(fmt_alias_all(ts, aliases), " & "@),
            TypeV::Ref(n) => n,
        }
    }
}

/// Every member rendered in a nested position, in order.
pub open spec fn fmt_alias_all(ts: Seq<TypeV>, aliases: Seq<(Seq<char>, TypeV)>) -> Seq<
    Seq<char>,
>
    decreases ts,
{
    if ts.len() == 0 {
        Seq::empty()
    } else {
        proof {
            assert(decreases_to!(ts => ts.drop_last()));
        }
        fmt_alias_all(ts.drop_last(), aliases).push(fmt_alias_v(ts.last(), aliases, false))
    }
}

/// Every field rendered as `key: type`, the type in a nested position.
pub open spec fn fmt_alias_fields(fs: Seq<(Seq<char>, TypeV)>, aliases: Seq<(Seq<char>, TypeV)>) -> Seq<
    Seq<char>,
>
    decreases fs,
{
    if fs.len() == 0 {
        Seq::empty()
    } else {
        proof {
            assert(decreases_to!(fs => fs.drop_last()));
        }
        fmt_alias_fields(fs.drop_last(), aliases).push(
            fs.last().0 + ": "@ + fmt_alias_v(fs.last().1, aliases, false),
        )
    }
}

/// Index of the alias naming `ty`, when exactly one does.
fn matching_alias(ty: &Type, aliases: &Vec<(String, Type)>) -> (r: Option<usize>)
    ensures
        match r {
            Option::Some(i) => alias_matches(ty@, field_views(aliases@)) == 1 && i
                < aliases@.len() && aliases@[i as int].0@ == alias_name(
                ty@,
                field_views(aliases@),
            ),
            Option::None => alias_matches(ty@, field_views(aliases@)) != 1,
        },
{
    let ghost av = field_views(aliases@);
    let mut count: usize = 0;
    let mut last: usize = 0;
    let mut i: usize = 0;
    proof {
        assert(av.take(0) =~= Seq::<(Seq<char>, TypeV)>::empty());
    }
    while i < aliases.len()
        invariant
            0 <= i <= aliases@.len(),
            av == field_views(aliases@),
            count == if alias_matches(ty@, av.take(i as int)) > 2 {
                2
            } else {
                alias_matches(ty@, av.take(i as int))
            },
            count > 0 ==> last < i && aliases@[last as int].0@ == alias_name(
                ty@,
                av.take(i as int),
            ),
        decreases aliases@.len() - i,
    {
        proof {
            assert(av.take(i + 1).drop_last() =~= av.take(i as int));
            assert(av.take(i + 1).last() == av[i as int]);
        }
        if type_eq(&aliases[i].1, ty) {
            last = i;
            if count < 2 {
                count += 1;
            }
        }
        i += 1;
    }
    proof {
        assert(av.take(aliases@.len() as int) =~= av);
    }
    if count == 1 {
        Option::Some(last)
    } else {
        Option::None
    }
}

/// Appends the hover rendering of `ty` to `out` (see [`fmt_alias_v`]).
#[verifier::loop_isolation(false)]
fn format_into(ty: &Type, aliases: &Vec<(String, Type)>, top: bool, out: &mut String)
    ensures
        final(out)@ == old(out)@ + fmt_alias_v(ty@, field_views(aliases@), top),
    decreases ty, 1nat,
{
    let ghost av = field_views(aliases@);
    let ghost start = out@;
    if !top {
        match matching_alias(ty, aliases) {
            Option::Some(i) => {
                push_str(out, aliases[i].0.as_str());
                return;
            },
            Option::None => {},
        }
    }
    proof {
        lemma_view_shapes(*ty);
    }
    match ty {
        Type::SomeType => push_str(out, "some"),
        Type::NoneType => push_str(out, "none"),
        Type::Never => push_str(out, "never"),
        Type::Null => push_str(out, "null"),
        Type::Bool => push_str(out, "bool"),
        Type::Int => push_str(out, "int"),
        Type::Num => push_str(out, "num"),
        Type::Str => push_str(out, "str"),
        Type::LiteralStr(s) => {
            push_char(out, '"');
            push_str(out, s.as_str());
            push_char(out, '"');
            proof {
                assert(out@ =~= start + (seq!['"'] + s@ + seq!['"']));
            }
        },
        Type::Array(e) => {
            push_char(out, '[');
            format_into(e, aliases, false, out);
            push_char(out, ']');
            proof {
                assert(out@ =~= start + (seq!['['] + fmt_alias_v(e@, av, false) + seq![']']));
            }
        },
        Type::Ref(n) => push_str(out, n.as_str()),
        Type::Union(ts) => {
            format_members(ts, aliases, " | ", out);
            proof {
                assert(ty@ matches TypeV::Union(x) && x == views(ts@));
            }
        },
        Type::Intersection(ts) => {
            format_members(ts, aliases, " & ", out);
            proof {
                assert(ty@ matches TypeV::Intersection(x) && x == views(ts@));
            }
        },
        Type::Object { fields, wildcard } => {
            proof {
                assert(ty@ matches TypeV::Object { fields: x, wildcard: w } && x == field_views(
                    fields@,
                ) && w == wildcard_view(*wildcard));
            }
            format_object(ty, aliases, out);
        },
    }
}

/// Appends `{k: t, ..., *: w}` for an object type.
#[verifier::loop_isolation(false)]
fn format_object(obj: &Type, aliases: &Vec<(String, Type)>, out: &mut String)
    requires
        obj is Object,
    ensures
        final(out)@ == old(out)@ + (match obj@ {
            TypeV::Object { fields, wildcard } => {
                let fp = fmt_alias_fields(fields, field_views(aliases@));
                let parts = match wildcard {
                    Option::Some(w) => fp.push("*: "@ + fmt_alias_v(*w, field_views(aliases@), false)),
                    Option::None => fp,
                };
                seq!['{'] + join_v(parts, ", "@) + seq!['}']
            },
            _ => Seq::empty(),
        }),
    decreases obj, 0nat,
{
    let (fields, wildcard) = match obj {
        Type::Object { fields, wildcard } => (fields, wildcard),
        _ => {
            return;
        },
    };
    proof {
        lemma_view_shapes(*obj);
    }
    let ghost av = field_views(aliases@);
    let ghost fv = field_views(fields@);
    let ghost start = out@;
    push_char(out, '{');
    let ghost after_open = out@;
    let mut i: usize = 0;
    proof {
        assert(fv.take(0) =~= Seq::<(Seq<char>, TypeV)>::empty());
        assert(out@ =~= after_open + join_v(fmt_alias_fields(fv.take(0), av), ", "@));
    }
    while i < fields.len()
        invariant
            0 <= i <= fields@.len(),
            out@ == after_open + join_v(fmt_alias_fields(fv.take(i as int), av), ", "@),
            fmt_alias_fields(fv.take(i as int), av).len() == i,
        decreases fields@.len() - i,
    {
        proof {
            assert(fv.take(i + 1).drop_last() =~= fv.take(i as int));
            assert(decreases_to!(fields => fields@));
            assert(decreases_to!(fields@ => fields@[i as int]));
            assert(decreases_to!(fields@[i as int] => fields@[i as int].1));
        }
        if i > 0 {
            push_str(out, ", ");
        }
        push_str(out, fields[i].0.as_str());
        push_str(out, ": ");
        format_into(&fields[i].1, aliases, false, out);
        proof {
            let part = fv[i as int].0 + ": "@ + fmt_alias_v(fv[i as int].1, av, false);
            assert(fmt_alias_fields(fv.take(i + 1), av) == fmt_alias_fields(fv.take(i as int), av).push(
                part,
            ));
            lemma_join_push(fmt_alias_fields(fv.take(i as int), av), ", "@, part);
            assert(out@ =~= after_open + join_v(fmt_alias_fields(fv.take(i + 1), av), ", "@));
        }
        i += 1;
    }
    proof {
        assert(fv.take(fields@.len() as int) =~= fv);
    }
    match wildcard {
        Option::Some(w) => {
            if fields.len() > 0 {
                push_str(out, ", ");
            }
            push_str(out, "*: ");
            format_into(w, aliases, false, out);
            proof {
                let part = "*: "@ + fmt_alias_v(w@, av, false);
                lemma_join_push(fmt_alias_fields(fv, av), ", "@, part);
                assert(out@ =~= after_open + join_v(fmt_alias_fields(fv, av).push(part), ", "@));
            }
        },
        Option::None => {},
    }
    push_char(out, '}');
    proof {
        let parts = match wildcard_view(*wildcard) {
            Option::Some(w) => fmt_alias_fields(fv, av).push("*: "@ + fmt_alias_v(*w, av, false)),
            Option::None => fmt_alias_fields(fv, av),
        };
        assert(out@ =~= start + (seq!['{'] + join_v(parts, ", "@) + seq!['}']));
    }
}

/// Appends the nested renderings of `ts` joined by `sep`.
#[verifier::loop_isolation(false)]
fn format_members(ts: &Vec<Type>, aliases: &Vec<(String, Type)>, sep: &str, out: &mut String)
    ensures
        final(out)@ == old(out)@ + join_v(fmt_alias_all(views(ts@), field_views(aliases@)), sep@),
    decreases ts, 0nat,
{
    let ghost av = field_views(aliases@);
    let ghost vs = views(ts@);
    let ghost start = out@;
    let mut i: usize = 0;
    while i < ts.len()
        invariant
            0 <= i <= ts@.len(),
            out@ == start + join_v(fmt_alias_all(vs.take(i as int), av), sep@),
            fmt_alias_all(vs.take(i as int), av).len() == i,
        decreases ts@.len() - i,
    {
        proof {
            assert(vs.take(i + 1).drop_last() =~= vs.take(i as int));
            assert(decreases_to!(ts => ts@));
            assert(decreases_to!(ts@ => ts@[i as int]));
        }
        if i > 0 {
            push_str(out, sep);
        }
        format_into(&ts[i], aliases, false, out);
        proof {
            let part = fmt_alias_v(vs[i as int], av, false);
            assert(fmt_alias_all(vs.take(i + 1), av) == fmt_alias_all(vs.take(i as int), av).push(
                part,
            ));
            lemma_join_push(fmt_alias_all(vs.take(i as int), av), sep@, part);
            assert(out@ =~= start + join_v(fmt_alias_all(vs.take(i + 1), av), sep@));
        }
        i += 1;
    }
    proof {
        assert(vs.take(ts@.len() as int) =~= vs);
    }
}

/// Renders a type for hovers, writing nested types that exactly one alias
/// names as that alias. The aliases are pairs of a name and a type, with
/// distinct names.
pub fn format_type_with_aliases(ty: &Type, aliases: &Vec<(String, Type)>) -> (r: String)
    requires
        distinct_names(field_views(aliases@)),
    ensures
        r@ == fmt_alias_v(ty@, field_views(aliases@), true),
{
    let mut out = String::new();
    format_into(ty, aliases, true, &mut out);
    proof {
        assert(Seq::<char>::empty() + fmt_alias_v(ty@, field_views(aliases@), true) =~= fmt_alias_v(
            ty@,
            field_views(aliases@),
            true,
        ));
    }
    out
}

/// Renders a type for hovers, with no aliases.
pub fn format_type(ty: &Type) -> (r: String)
    ensures
        r@ == fmt_alias_v(ty@, Seq::empty(), true),
{
    let aliases: Vec<(String, Type)> = Vec::new();
    let r = format_type_with_aliases(ty, &aliases);
    proof {
        assert(field_views(aliases@) =~= Seq::<(Seq<char>, TypeV)>::empty());
    }
    r
}


/// Whether `word` names a built-in type.
pub fn is_type_name(word: &str) -> (r: bool)
    ensures
        r == (word@ == "str"@ || word@ == "int"@ || word@ == "num"@ || word@ == "bool"@ || word@
            == "some"@ || word@ == "none"@ || word@ == "null"@ || word@ == "unknown"@ || word@
            == "never"@),
{
    str_eq(word, "str") || str_eq(word, "int") || str_eq(word, "num") || str_eq(word, "bool")
        || str_eq(word, "some") || str_eq(word, "none") || str_eq(word, "null") || str_eq(
        word,
        "unknown",
    ) || str_eq(word, "never")
}

/// The value of a hexadecimal digit byte.
pub open spec fn hex_value(b: u8) -> Option<u8> {
    if 48 <= b <= 57 {
        Option::Some((b - 48) as u8)
    } else if 97 <= b <= 102 {
        Option::Some((b - 97 + 10) as u8)
    } else if 65 <= b <= 70 {
        Option::Some((b - 65 + 10) as u8)
    } else {
        Option::None
    }
}

/// The value of a hexadecimal digit byte.
pub fn hex_digit(b: u8) -> (r: Option<u8>)
    ensures
        r == hex_value(b),
{
    if 48 <= b && b <= 57 {
        Option::Some(b - 48)
    } else if 97 <= b && b <= 102 {
        Option::Some(b - 97 + 10)
    } else if 65 <= b && b <= 70 {
        Option::Some(b - 65 + 10)
    } else {
        Option::None
    }
}

/// The byte at `i`, or 0 past the end.
pub open spec fn byte_or_zero(b: Seq<u8>, i: int) -> u8 {
    if 0 <= i < b.len() {
        b[i]
    } else {
        0
    }
}

/// Percent-decoding of bytes, each other byte read as the character of
/// that code: `%` and two hex digits give the character of that code; a `%`
/// without them is kept, followed by the next two bytes (0 past the end).
pub open spec fn percent_decoded(b: Seq<u8>) -> Seq<char>
    decreases b.len(),
{
    if b.len() == 0 {
        Seq::empty()
    } else if b[0] == 37 {
        let h1 = byte_or_zero(b, 1);
        let h2 = byte_or_zero(b, 2);
        let next = if b.len() < 3 {
            b.len() as int
        } else {
            3
        };
        let head = match (hex_value(h1), hex_value(h2)) {
            (Option::Some(d1), Option::Some(d2)) => seq![((d1 * 16 + d2) as u8) as char],
            _ => seq!['%', h1 as char, h2 as char],
        };
        head + percent_decoded(b.subrange(next, b.len() as int))
    } else {
        seq![b[0] as char] + percent_decoded(b.subrange(1, b.len() as int))
    }
}

/// Decodes the percent-encoding of a URI path.
pub fn percent_decode(s: &str) -> (r: String)
    ensures
        r@ == percent_decoded(s.spec_bytes()),
{
    let bytes = s.as_bytes();
    let ghost b = bytes@;
    let n = bytes.len();
    let mut out = String::new();
    let mut i: usize = 0;
    proof {
        assert(b.subrange(0, n as int) =~= b);
        assert(Seq::<char>::empty() + percent_decoded(b) =~= percent_decoded(b));
    }
    while i < n
        invariant
            bytes@ == b,
            n == b.len(),
            0 <= i <= n,
            out@ + percent_decoded(b.subrange(i as int, n as int)) == percent_decoded(b),
        decreases n - i,
    {
        let ghost rest = b.subrange(i as int, n as int);
        let c = bytes[i];
        if c == 37 {
            let h1: u8 = if n - i > 1 {
                bytes[i + 1]
            } else {
                0
            };
            let h2: u8 = if n - i > 2 {
                bytes[i + 2]
            } else {
                0
            };
            let next = if n - i < 3 {
                n
            } else {
                i + 3
            };
            let ghost before = out@;
            match (hex_digit(h1), hex_digit(h2)) {
                (Option::Some(d1), Option::Some(d2)) => {
                    push_char(&mut out, ((d1 << 4) | d2) as char);
                    proof {
                        assert((d1 << 4) | d2 == d1 * 16 + d2) by (bit_vector)
                            requires
                                d1 < 16,
                                d2 < 16,
                        ;
                    }
                },
                _ => {
                    push_char(&mut out, '%');
                    push_char(&mut out, h1 as char);
                    push_char(&mut out, h2 as char);
                },
            }
            proof {
                assert(byte_or_zero(rest, 1) == h1);
                assert(byte_or_zero(rest, 2) == h2);
                assert(rest.subrange(next - i, rest.len() as int) =~= b.subrange(
                    next as int,
                    n as int,
                ));
                let head = match (hex_value(h1), hex_value(h2)) {
                    (Option::Some(d1), Option::Some(d2)) => seq![((d1 * 16 + d2) as u8) as char],
                    _ => seq!['%', h1 as char, h2 as char],
                };
                assert(out@ =~= before + head);
                assert(before + (head + percent_decoded(b.subrange(next as int, n as int))) =~= out@
                    + percent_decoded(b.subrange(next as int, n as int)));
            }
            i = next;
        } else {
            let ghost before = out@;
            push_char(&mut out, c as char);
            proof {
                assert(rest.subrange(1, rest.len() as int) =~= b.subrange(i + 1, n as int));
                assert(before + (seq![c as char] + percent_decoded(b.subrange(i + 1, n as int)))
                    =~= out@ + percent_decoded(b.subrange(i + 1, n as int)));
            }
            i = i + 1;
        }
    }
    proof {
        assert(b.subrange(n as int, n as int) =~= Seq::<u8>::empty());
        assert(out@ + Seq::<char>::empty() =~= out@);
    }
    out
}
} // verus!
