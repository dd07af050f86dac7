//! Hover text for the editor: what a word under the cursor names in the
//! domain schema, as markdown.

use vstd::prelude::*;
use crate::editor::{fmt_alias_v, format_type};
use crate::env::{DomainSchema, FunctionSig, find_global, global_of, global_names};
use crate::heap::{lemma_str_index, str_index};
use crate::definition::{trim_chars, trim_start_v, trim_v};
use crate::markdown::{line_starts_with, split_lines, starts_with, text_lines, white_space};
use crate::text::{chars_to_string, push_chars, push_str, str_chars, str_eq, str_to_string};
use crate::types::{Type, TypeV, field_views, find_field, join_v, key_index, lemma_join_push};
use crate::cursor::{byte_len, end_of_word, lemma_position_index, position_index, position_of, start_of_word, word_around, word_end, word_start};
use crate::editor::{distinct_names, format_type_with_aliases, is_type_name};
use crate::locals::{in_type, in_type_at, tree_of};
use crate::position::{chars_before, chars_before_from};
use crate::syntax::{Element, Node};
use crate::text::{char_width, chars_slice_to_string, lemma_utf8_len_add, utf8_len, utf8_width};

verus! {

/// The rendering of a type in hovers.
pub open spec fn fmt_ty(t: TypeV) -> Seq<char> {
    fmt_alias_v(t, Seq::empty(), true)
}

/// `body` in a code fence.
pub open spec fn fenced(body: Seq<char>) -> Seq<char> {
    "```\n"@ + body + "\n```"@
}

/// The documentation part of a hover, after a rule.
pub open spec fn doc_suffix(doc: Option<String>) -> Seq<char> {
    match doc {
        Option::Some(d) => "\n\n---\n\n"@ + d@,
        Option::None => Seq::empty(),
    }
}

/// Each argument as `name: type`.
pub open spec fn arg_parts(args: Seq<(Seq<char>, TypeV)>) -> Seq<Seq<char>> {
    Seq::new(args.len(), |i: int| args[i].0 + ": "@ + fmt_ty(args[i].1))
}

/// `name(args) -> returns` for a function signature.
pub open spec fn signature_text(name: Seq<char>, sig: FunctionSig) -> Seq<char> {
    name + "("@ + join_v(arg_parts(field_views(sig.args@)), ", "@) + ") -> "@ + fmt_ty(sig.returns@)
}

/// The names of the functions, in order.
pub open spec fn function_names(fs: Seq<(String, FunctionSig)>) -> Seq<Seq<char>> {
    Seq::new(fs.len(), |i: int| fs[i].0@)
}

/// The function named `name`, if any.
pub open spec fn function_of(fs: Seq<(String, FunctionSig)>, name: Seq<char>) -> Option<FunctionSig> {
    if str_index(function_names(fs), name) >= 0 {
        Option::Some(fs[str_index(function_names(fs), name)].1)
    } else {
        Option::None
    }
}

/// What a built-in type keyword means.
pub open spec fn builtin_desc(word: Seq<char>) -> Option<Seq<char>> {
    if word == "str"@ {
        Option::Some("Built-in string type"@)
    } else if word == "int"@ {
        Option::Some("Built-in integer type (whole numbers)"@)
    } else if word == "num"@ {
        Option::Some("Built-in number type (integer or decimal)"@)
    } else if word == "bool"@ {
        Option::Some("Built-in boolean type (true or false)"@)
    } else if word == "null"@ {
        Option::Some("The null value"@)
    } else if word == "none"@ {
        Option::Some("The absence of a value — only `none` is falsy in Rex"@)
    } else if word == "some"@ {
        Option::Some("Any defined value — must narrow before use"@)
    } else if word == "unknown"@ {
        Option::Some("Any value or none — alias for `some | none`"@)
    } else if word == "never"@ {
        Option::Some("Unreachable — function doesn't return"@)
    } else {
        Option::None
    }
}

/// Whether `s` starts with `p`.
pub open spec fn has_prefix(s: Seq<char>, p: Seq<char>) -> bool {
    p.len() <= s.len() && s.take(p.len() as int) == p
}

/// The signature lines of the functions under the namespace `word`
/// (named `word.method`), in table order.
pub open spec fn member_lines(fs: Seq<(String, FunctionSig)>, word: Seq<char>) -> Seq<Seq<char>>
    decreases fs.len(),
{
    if fs.len() == 0 {
        Seq::empty()
    } else {
        let rest = member_lines(fs.drop_last(), word);
        let name = fs.last().0@;
        let prefix = word + seq!['.'];
        if has_prefix(name, prefix) {
            rest.push(
                signature_text(word + seq!['.'] + name.skip(prefix.len() as int), fs.last().1),
            )
        } else {
            rest
        }
    }
}

/// String order: by character codes, a proper prefix first.
pub open spec fn str_lt(a: Seq<char>, b: Seq<char>) -> bool
    decreases a.len(),
{
    if a.len() == 0 {
        b.len() > 0
    } else if b.len() == 0 {
        false
    } else if a[0] != b[0] {
        (a[0] as u32) < (b[0] as u32)
    } else {
        str_lt(a.drop_first(), b.drop_first())
    }
}

/// `x` put into the sorted `s` after every string not above it.
pub open spec fn insert_sorted(s: Seq<Seq<char>>, x: Seq<char>) -> Seq<Seq<char>>
    decreases s.len(),
{
    if s.len() == 0 {
        seq![x]
    } else if str_lt(x, s[0]) {
        seq![x] + s
    } else {
        seq![s[0]] + insert_sorted(s.drop_first(), x)
    }
}

/// `s` sorted in string order.
pub open spec fn sorted(s: Seq<Seq<char>>) -> Seq<Seq<char>>
    decreases s.len(),
{
    if s.len() == 0 {
        Seq::empty()
    } else {
        insert_sorted(sorted(s.drop_last()), s.last())
    }
}

/// The hover for `word`: a global, a function or a type alias of the
/// schema, a built-in type (in a type position), or the functions of a
/// namespace (sorted); nothing otherwise.
pub open spec fn hover_v(schema: DomainSchema, word: Seq<char>, type_context: bool) -> Option<Seq<char>> {
    match global_of(schema.globals@, word) {
        Option::Some(e) => Option::Some(
            fenced("extern "@ + word + ": "@ + fmt_ty(e.ty@)) + doc_suffix(e.doc),
        ),
        Option::None => match function_of(schema.functions@, word) {
            Option::Some(sig) => Option::Some(
                fenced("extern "@ + signature_text(word, sig)) + doc_suffix(sig.doc),
            ),
            Option::None => if key_index(field_views(schema.type_aliases@), word) >= 0 {
                Option::Some(
                    fenced(
                        "type "@ + word + " = "@ + fmt_ty(
                            field_views(schema.type_aliases@)[key_index(
                                field_views(schema.type_aliases@),
                                word,
                            )].1,
                        ),
                    ),
                )
            } else if type_context && builtin_desc(word) is Some {
                Option::Some(fenced("type "@ + word) + "\n\n---\n\n"@ + builtin_desc(word)->0)
            } else if member_lines(schema.functions@, word).len() > 0 {
                Option::Some(fenced(join_v(sorted(member_lines(schema.functions@, word)), "\n"@)))
            } else {
                Option::None
            },
        },
    }
}

/// Index of the function named `name`.
pub(crate) fn find_function(fs: &Vec<(String, FunctionSig)>, name: &str) -> (r: Option<usize>)
    ensures
        match r {
            Option::Some(i) => str_index(function_names(fs@), name@) == i && i < fs@.len(),
            Option::None => str_index(function_names(fs@), name@) == -1,
        },
{
    let ghost names = function_names(fs@);
    proof {
        lemma_str_index(names, name@);
    }
    let mut i: usize = 0;
    while i < fs.len()
        invariant
            0 <= i <= fs@.len(),
            names == function_names(fs@),
            forall|j: int| 0 <= j < i ==> names[j] != name@,
            str_index(names, name@) == -1 ==> forall|j: int| 0 <= j < names.len() ==> names[j] != name@,
            str_index(names, name@) != -1 ==> 0 <= str_index(names, name@) < names.len()
                && names[str_index(names, name@)] == name@ && forall|j: int|
                0 <= j < str_index(names, name@) ==> names[j] != name@,
        decreases fs@.len() - i,
    {
        if str_eq(fs[i].0.as_str(), name) {
            proof {
                assert(names[i as int] == name@);
            }
            return Option::Some(i);
        }
        i += 1;
    }
    Option::None
}

/// Appends the documentation part of a hover.
fn push_doc(out: &mut String, doc: &Option<String>)
    ensures
        final(out)@ == old(out)@ + doc_suffix(*doc),
{
    match doc {
        Option::Some(d) => {
            push_str(out, "\n\n---\n\n");
            push_str(out, d.as_str());
            proof {
                assert(final(out)@ =~= old(out)@ + doc_suffix(*doc));
            }
        },
        Option::None => {
            proof {
                assert(old(out)@ + doc_suffix(*doc) =~= old(out)@);
            }
        },
    }
}

/// Appends `name(args) -> returns`.
pub(crate) fn push_signature(out: &mut String, name: &str, sig: &FunctionSig)
    ensures
        final(out)@ == old(out)@ + signature_text(name@, *sig),
{
    let ghost start = out@;
    let ghost av = field_views(sig.args@);
    push_str(out, name);
    push_str(out, "(");
    let ghost after_open = out@;
    let mut i: usize = 0;
    proof {
        assert(arg_parts(av).take(0) =~= Seq::<Seq<char>>::empty());
        assert(out@ =~= after_open + join_v(arg_parts(av).take(0), ", "@));
    }
    while i < sig.args.len()
        invariant
            0 <= i <= sig.args@.len(),
            av == field_views(sig.args@),
            out@ == after_open + join_v(arg_parts(av).take(i as int), ", "@),
            after_open == start + name@ + "("@,
        decreases sig.args@.len() - i,
    {
        if i > 0 {
            push_str(out, ", ");
        }
        push_str(out, sig.args[i].0.as_str());
        push_str(out, ": ");
        let t = format_type(&sig.args[i].1);
        push_str(out, t.as_str());
        proof {
            let part = av[i as int].0 + ": "@ + fmt_ty(av[i as int].1);
            assert(arg_parts(av)[i as int] == part);
            assert(arg_parts(av).take(i + 1) =~= arg_parts(av).take(i as int).push(part));
            lemma_join_push(arg_parts(av).take(i as int), ", "@, part);
            assert(out@ =~= after_open + join_v(arg_parts(av).take(i + 1), ", "@));
        }
        i += 1;
    }
    proof {
        assert(arg_parts(av).take(sig.args@.len() as int) =~= arg_parts(av));
    }
    push_str(out, ") -> ");
    let r = format_type(&sig.returns);
    push_str(out, r.as_str());
    proof {
        assert(out@ =~= start + signature_text(name@, *sig));
    }
}

/// Whether `a` comes before `b` in string order.
fn chars_lt(a: &Vec<char>, b: &Vec<char>) -> (r: bool)
    ensures
        r == str_lt(a@, b@),
{
    let mut i: usize = 0;
    proof {
        assert(a@.skip(0) =~= a@);
        assert(b@.skip(0) =~= b@);
    }
    while i < a.len() && i < b.len() && a[i] == b[i]
        invariant
            0 <= i <= a@.len(),
            i <= b@.len(),
            str_lt(a@, b@) == str_lt(a@.skip(i as int), b@.skip(i as int)),
        decreases a@.len() - i,
    {
        proof {
            assert(a@.skip(i as int).drop_first() =~= a@.skip(i + 1));
            assert(b@.skip(i as int).drop_first() =~= b@.skip(i + 1));
        }
        i += 1;
    }
    proof {
        if i < a@.len() && i < b@.len() {
            assert(a@.skip(i as int)[0] == a@[i as int]);
            assert(b@.skip(i as int)[0] == b@[i as int]);
        }
    }
    if i >= a.len() {
        i < b.len()
    } else if i >= b.len() {
        false
    } else {
        (a[i] as u32) < (b[i] as u32)
    }
}

/// Where `insert_sorted` puts `x`: before the first string above it.
proof fn lemma_insert_sorted_at(s: Seq<Seq<char>>, x: Seq<char>, i: int)
    requires
        0 <= i <= s.len(),
        forall|j: int| 0 <= j < i ==> !str_lt(x, #[trigger] s[j]),
        i == s.len() || str_lt(x, s[i]),
    ensures
        insert_sorted(s, x) == s.take(i).push(x) + s.skip(i),
    decreases s.len(),
{
    if s.len() == 0 {
        assert(s.take(i).push(x) + s.skip(i) =~= seq![x]);
    } else if i == 0 {
        assert(s.take(0).push(x) + s.skip(0) =~= seq![x] + s);
    } else {
        let t = s.drop_first();
        assert forall|j: int| 0 <= j < i - 1 implies !str_lt(x, #[trigger] t[j]) by {
            assert(t[j] == s[j + 1]);
        }
        if i < s.len() {
            assert(t[i - 1] == s[i]);
        }
        lemma_insert_sorted_at(t, x, i - 1);
        assert(seq![s[0]] + (t.take(i - 1).push(x) + t.skip(i - 1)) =~= s.take(i).push(x) + s.skip(
            i,
        ));
    }
}

/// Sorts strings (insertion sort, stable).
fn sort_strings(v: Vec<String>) -> (r: Vec<String>)
    ensures
        Seq::new(r@.len(), |i: int| r@[i]@) == sorted(Seq::new(v@.len(), |i: int| v@[i]@)),
{
    let ghost vs = Seq::new(v@.len(), |i: int| v@[i]@);
    let mut out: Vec<String> = Vec::new();
    let mut k: usize = 0;
    proof {
        assert(vs.take(0) =~= Seq::<Seq<char>>::empty());
        assert(Seq::new(out@.len(), |i: int| out@[i]@) =~= Seq::<Seq<char>>::empty());
    }
    while k < v.len()
        invariant
            0 <= k <= v@.len(),
            vs == Seq::new(v@.len(), |i: int| v@[i]@),
            Seq::new(out@.len(), |i: int| out@[i]@) == sorted(vs.take(k as int)),
        decreases v@.len() - k,
    {
        let ghost os = Seq::new(out@.len(), |i: int| out@[i]@);
        let x = str_chars(v[k].as_str());
        let mut i: usize = 0;
        while i < out.len()
            invariant_except_break
                0 <= i <= out@.len(),
                os == Seq::new(out@.len(), |j: int| out@[j]@),
                x@ == vs[k as int],
                forall|j: int| 0 <= j < i ==> !str_lt(x@, #[trigger] os[j]),
            ensures
                0 <= i <= out@.len(),
                os == Seq::new(out@.len(), |j: int| out@[j]@),
                x@ == vs[k as int],
                forall|j: int| 0 <= j < i ==> !str_lt(x@, #[trigger] os[j]),
                i == out@.len() || str_lt(x@, os[i as int]),
            decreases out@.len() - i,
        {
            let y = str_chars(out[i].as_str());
            if chars_lt(&x, &y) {
                break;
            }
            i += 1;
        }
        proof {
            lemma_insert_sorted_at(os, x@, i as int);
            assert(vs.take(k + 1).drop_last() =~= vs.take(k as int));
            assert(vs.take(k + 1).last() == vs[k as int]);
        }
        out.insert(i, str_to_string(v[k].as_str()));
        proof {
            assert(Seq::new(out@.len(), |j: int| out@[j]@) =~= os.take(i as int).push(x@) + os.skip(
                i as int,
            ));
        }
        k += 1;
    }
    proof {
        assert(vs.take(v@.len() as int) =~= vs);
    }
    out
}

/// `s` starts with `p`.
pub(crate) fn str_has_prefix(s: &str, p: &str) -> (r: bool)
    ensures
        r == has_prefix(s@, p@),
{
    let a = str_chars(s);
    let b = str_chars(p);
    if b.len() > a.len() {
        return false;
    }
    let mut i: usize = 0;
    while i < b.len()
        invariant
            0 <= i <= b@.len(),
            b@.len() <= a@.len(),
            a@ == s@,
            b@ == p@,
            forall|j: int| 0 <= j < i ==> a@[j] == b@[j],
        decreases b@.len() - i,
    {
        if a[i] != b[i] {
            proof {
                assert(s@.take(p@.len() as int)[i as int] != p@[i as int]);
            }
            return false;
        }
        i += 1;
    }
    proof {
        assert(s@.take(p@.len() as int) =~= p@);
    }
    true
}

/// The hover for `word` (see `hover_v`).
pub fn hover(schema: &DomainSchema, word: &str, type_context: bool) -> (r: Option<String>)
    ensures
        match r {
            Option::Some(t) => hover_v(*schema, word@, type_context) == Option::Some(t@),
            Option::None => hover_v(*schema, word@, type_context) is None,
        },
{
    match find_global(&schema.globals, word) {
        Option::Some(i) => {
            let entry = &schema.globals[i].1;
            let mut text = str_to_string("```\n");
            push_str(&mut text, "extern ");
            push_str(&mut text, word);
            push_str(&mut text, ": ");
            let t = format_type(&entry.ty);
            push_str(&mut text, t.as_str());
            push_str(&mut text, "\n```");
            let ghost head = text@;
            push_doc(&mut text, &entry.doc);
            proof {
                assert(head =~= fenced("extern "@ + word@ + ": "@ + fmt_ty(entry.ty@)));
            }
            return Option::Some(text);
        },
        Option::None => {},
    }
    match find_function(&schema.functions, word) {
        Option::Some(i) => {
            let sig = &schema.functions[i].1;
            let mut text = str_to_string("```\n");
            push_str(&mut text, "extern ");
            push_signature(&mut text, word, sig);
            push_str(&mut text, "\n```");
            let ghost head = text@;
            push_doc(&mut text, &sig.doc);
            proof {
                assert(head =~= fenced("extern "@ + signature_text(word@, *sig)));
            }
            return Option::Some(text);
        },
        Option::None => {},
    }
    match find_field(&schema.type_aliases, word) {
        Option::Some(i) => {
            let mut text = str_to_string("```\n");
            push_str(&mut text, "type ");
            push_str(&mut text, word);
            push_str(&mut text, " = ");
            let t = format_type(&schema.type_aliases[i].1);
            push_str(&mut text, t.as_str());
            push_str(&mut text, "\n```");
            proof {
                assert(text@ =~= fenced(
                    "type "@ + word@ + " = "@ + fmt_ty(field_views(schema.type_aliases@)[i as int].1),
                ));
            }
            return Option::Some(text);
        },
        Option::None => {},
    }
    if type_context {
        let desc: Option<&str> = if str_eq(word, "str") {
            Option::Some("Built-in string type")
        } else if str_eq(word, "int") {
            Option::Some("Built-in integer type (whole numbers)")
        } else if str_eq(word, "num") {
            Option::Some("Built-in number type (integer or decimal)")
        } else if str_eq(word, "bool") {
            Option::Some("Built-in boolean type (true or false)")
        } else if str_eq(word, "null") {
            Option::Some("The null value")
        } else if str_eq(word, "none") {
            Option::Some("The absence of a value — only `none` is falsy in Rex")
        } else if str_eq(word, "some") {
            Option::Some("Any defined value — must narrow before use")
        } else if str_eq(word, "unknown") {
            Option::Some("Any value or none — alias for `some | none`")
        } else if str_eq(word, "never") {
            Option::Some("Unreachable — function doesn't return")
        } else {
            Option::None
        };
        match desc {
            Option::Some(d) => {
                let mut text = str_to_string("```\n");
                push_str(&mut text, "type ");
                push_str(&mut text, word);
                push_str(&mut text, "\n```");
                push_str(&mut text, "\n\n---\n\n");
                push_str(&mut text, d);
                proof {
                    assert(text@ =~= fenced("type "@ + word@) + "\n\n---\n\n"@ + d@);
                }
                return Option::Some(text);
            },
            Option::None => {},
        }
    }
    let mut prefix = str_to_string(word);
    push_str(&mut prefix, ".");
    proof {
        reveal_strlit(".");
        assert("."@ =~= seq!['.']);
    }
    let mut members: Vec<String> = Vec::new();
    let mut k: usize = 0;
    proof {
        assert(schema.functions@.take(0) =~= Seq::<(String, FunctionSig)>::empty());
        assert(Seq::new(members@.len(), |j: int| members@[j]@) =~= Seq::<Seq<char>>::empty());
    }
    while k < schema.functions.len()
        invariant
            0 <= k <= schema.functions@.len(),
            prefix@ == word@ + seq!['.'],
            Seq::new(members@.len(), |j: int| members@[j]@) == member_lines(
                schema.functions@.take(k as int),
                word@,
            ),
        decreases schema.functions@.len() - k,
    {
        let ghost ms = Seq::new(members@.len(), |j: int| members@[j]@);
        proof {
            assert(schema.functions@.take(k + 1).drop_last() =~= schema.functions@.take(k as int));
            assert(schema.functions@.take(k + 1).last() == schema.functions@[k as int]);
        }
        let name = &schema.functions[k].0;
        if str_has_prefix(name.as_str(), prefix.as_str()) {
            let chars = str_chars(name.as_str());
            let plen = str_chars(prefix.as_str()).len();
            let method = crate::lexer::slice_chars(&chars, plen, chars.len());
            let mut full = str_to_string(word);
            push_str(&mut full, ".");
            let method_s = crate::text::chars_to_string(&method);
            push_str(&mut full, method_s.as_str());
            let mut line = String::new();
            push_signature(&mut line, full.as_str(), &schema.functions[k].1);
            proof {
                reveal_strlit(".");
                assert("."@ =~= seq!['.']);
                assert(method@ =~= name@.skip(prefix@.len() as int));
                assert(full@ =~= word@ + seq!['.'] + name@.skip((word@ + seq!['.']).len() as int));
                assert(Seq::<char>::empty() + signature_text(full@, schema.functions@[k as int].1)
                    =~= signature_text(full@, schema.functions@[k as int].1));
            }
            members.push(line);
            proof {
                assert(Seq::new(members@.len(), |j: int| members@[j]@) =~= ms.push(
                    signature_text(full@, schema.functions@[k as int].1),
                ));
            }
        }
        k += 1;
    }
    proof {
        assert(schema.functions@.take(schema.functions@.len() as int) =~= schema.functions@);
    }
    if members.len() == 0 {
        return Option::None;
    }
    let sorted_members = sort_strings(members);
    let ghost ss = Seq::new(sorted_members@.len(), |j: int| sorted_members@[j]@);
    let mut text = str_to_string("```\n");
    let ghost after_open = text@;
    let mut i: usize = 0;
    proof {
        assert(ss.take(0) =~= Seq::<Seq<char>>::empty());
        assert(text@ =~= after_open + join_v(ss.take(0), "\n"@));
    }
    while i < sorted_members.len()
        invariant
            0 <= i <= sorted_members@.len(),
            ss == Seq::new(sorted_members@.len(), |j: int| sorted_members@[j]@),
            text@ == after_open + join_v(ss.take(i as int), "\n"@),
        decreases sorted_members@.len() - i,
    {
        if i > 0 {
            push_str(&mut text, "\n");
        }
        push_str(&mut text, sorted_members[i].as_str());
        proof {
            assert(ss.take(i + 1) =~= ss.take(i as int).push(ss[i as int]));
            lemma_join_push(ss.take(i as int), "\n"@, ss[i as int]);
            assert(text@ =~= after_open + join_v(ss.take(i + 1), "\n"@));
        }
        i += 1;
    }
    push_str(&mut text, "\n```");
    proof {
        assert(ss.take(sorted_members@.len() as int) =~= ss);
        lemma_sorted_len(member_lines(schema.functions@, word@));
        assert(text@ =~= fenced(join_v(sorted(member_lines(schema.functions@, word@)), "\n"@)));
    }
    Option::Some(text)
}

proof fn lemma_insert_sorted_len(s: Seq<Seq<char>>, x: Seq<char>)
    ensures
        insert_sorted(s, x).len() == s.len() + 1,
    decreases s.len(),
{
    if s.len() > 0 && !str_lt(x, s[0]) {
        lemma_insert_sorted_len(s.drop_first(), x);
    }
}

proof fn lemma_sorted_len(s: Seq<Seq<char>>)
    ensures
        sorted(s).len() == s.len(),
    decreases s.len(),
{
    if s.len() > 0 {
        lemma_sorted_len(s.drop_last());
        lemma_insert_sorted_len(sorted(s.drop_last()), s.last());
    }
}

// ── Parameters in declaration sources ───────────────────────────────────

/// Index of the first `(` in `s`, or -1.
pub open spec fn paren_index(s: Seq<char>, i: int) -> int
    decreases s.len() - i,
{
    if i < 0 || i >= s.len() {
        -1
    } else if s[i] == '(' {
        i
    } else {
        paren_index(s, i + 1)
    }
}

/// The function that line `line` of a declaration source declares with
/// `extern name(...)` (after an optional `mut`).
pub open spec fn declared_function(source: Seq<char>, line: int) -> Option<Seq<char>> {
    let ls = text_lines(source);
    if 0 <= line < ls.len() {
        let t = trim_start_v(ls[line]);
        let prefix = seq!['e', 'x', 't', 'e', 'r', 'n', ' '];
        if starts_with(t, prefix) {
            let ep = t.skip(7);
            let p = paren_index(ep, 0);
            if p >= 0 {
                let part = trim_v(ep.take(p));
                Option::Some(
                    if starts_with(part, seq!['m', 'u', 't', ' ']) {
                        part.skip(4)
                    } else {
                        part
                    },
                )
            } else {
                Option::None
            }
        } else {
            Option::None
        }
    } else {
        Option::None
    }
}

/// The hover of a parameter: its name and type, then what it belongs to.
pub open spec fn param_hover_text(word: Seq<char>, ty: TypeV, label: Seq<char>, f: Seq<char>) -> Seq<
    char,
> {
    "```rex\n"@ + word + ": "@ + fmt_ty(ty) + "\n```\n\n---\n\n"@ + label + f + seq!['`']
}

/// The hover for `word` as a parameter of the function declared on line
/// `line` of a declaration source: the first parameter of that name, else
/// the rest parameter of that name.
pub open spec fn rexd_param_hover_v(schema: DomainSchema, source: Seq<char>, line: int, word: Seq<char>) -> Option<Seq<char>> {
    match declared_function(source, line) {
        Option::Some(f) => match function_of(schema.functions@, f) {
            Option::Some(sig) => {
                let args = field_views(sig.args@);
                let ai = key_index(args, word);
                if ai >= 0 {
                    Option::Some(param_hover_text(word, args[ai].1, "Parameter of `"@, f))
                } else {
                    match sig.rest {
                        Option::Some((n, t)) => if n@ == word {
                            Option::Some(param_hover_text(word, t@, "Rest parameter of `"@, f))
                        } else {
                            Option::None
                        },
                        Option::None => Option::None,
                    }
                }
            },
            Option::None => Option::None,
        },
        Option::None => Option::None,
    }
}

/// `cs` without its leading white space.
fn trim_start_chars(cs: &Vec<char>) -> (r: Vec<char>)
    ensures
        r@ == trim_start_v(cs@),
{
    let mut a: usize = 0;
    proof {
        assert(cs@.skip(0) =~= cs@);
    }
    while a < cs.len() && white_space(cs[a])
        invariant
            0 <= a <= cs@.len(),
            trim_start_v(cs@) == trim_start_v(cs@.skip(a as int)),
        decreases cs@.len() - a,
    {
        proof {
            assert(cs@.skip(a as int).drop_first() =~= cs@.skip(a + 1));
        }
        a += 1;
    }
    let r = crate::lexer::slice_chars(cs, a, cs.len());
    proof {
        assert(r@ =~= cs@.skip(a as int));
    }
    r
}

/// The function declared on a line (see `declared_function`).
fn declared_function_of(source: &str, line: u32) -> (r: Option<Vec<char>>)
    requires
        source@.len() + 4 <= usize::MAX,
    ensures
        match r {
            Option::Some(f) => declared_function(source@, line as int) == Option::Some(f@),
            Option::None => declared_function(source@, line as int) is None,
        },
{
    let chars = str_chars(source);
    let lines = split_lines(&chars);
    let n = line as usize;
    if n >= lines.len() {
        return Option::None;
    }
    let t = trim_start_chars(&lines[n]);
    if !line_starts_with(&t, &['e', 'x', 't', 'e', 'r', 'n', ' ']) {
        return Option::None;
    }
    let ep = crate::lexer::slice_chars(&t, 7, t.len());
    proof {
        assert(ep@ =~= t@.skip(7));
    }
    let mut p: usize = 0;
    while p < ep.len() && ep[p] != '('
        invariant
            0 <= p <= ep@.len(),
            paren_index(ep@, 0) == paren_index(ep@, p as int),
        decreases ep@.len() - p,
    {
        p += 1;
    }
    if p >= ep.len() {
        return Option::None;
    }
    let before = crate::lexer::slice_chars(&ep, 0, p);
    proof {
        assert(before@ =~= ep@.take(p as int));
    }
    let part = trim_chars(&before);
    if line_starts_with(&part, &['m', 'u', 't', ' ']) {
        let f = crate::lexer::slice_chars(&part, 4, part.len());
        proof {
            assert(f@ =~= part@.skip(4));
        }
        Option::Some(f)
    } else {
        Option::Some(part)
    }
}

/// Writes the hover of a parameter.
fn param_hover(word: &str, ty: &Type, label: &str, f: &Vec<char>) -> (r: String)
    ensures
        r@ == param_hover_text(word@, ty@, label@, f@),
{
    let mut text = str_to_string("```rex\n");
    push_str(&mut text, word);
    push_str(&mut text, ": ");
    let t = format_type(ty);
    push_str(&mut text, t.as_str());
    push_str(&mut text, "\n```\n\n---\n\n");
    push_str(&mut text, label);
    push_chars(&mut text, f);
    crate::text::push_char(&mut text, '`');
    proof {
        assert(text@ =~= param_hover_text(word@, ty@, label@, f@));
    }
    text
}

/// The hover for `word` as a parameter of the function declared on line
/// `line` (0-based) of a declaration source (see `rexd_param_hover_v`).
pub fn hover_rexd_param(schema: &DomainSchema, source: &str, line: u32, word: &str) -> (r: Option<
    String,
>)
    requires
        source@.len() + 4 <= usize::MAX,
    ensures
        match r {
            Option::Some(t) => rexd_param_hover_v(*schema, source@, line as int, word@)
                == Option::Some(t@),
            Option::None => rexd_param_hover_v(*schema, source@, line as int, word@) is None,
        },
{
    let f = match declared_function_of(source, line) {
        Option::Some(f) => f,
        Option::None => {
            return Option::None;
        },
    };
    let fname = chars_to_string(&f);
    let i = match find_function(&schema.functions, fname.as_str()) {
        Option::Some(i) => i,
        Option::None => {
            return Option::None;
        },
    };
    let sig = &schema.functions[i].1;
    match find_field(&sig.args, word) {
        Option::Some(ai) => {
            return Option::Some(param_hover(word, &sig.args[ai].1, "Parameter of `", &f));
        },
        Option::None => {},
    }
    match &sig.rest {
        Option::Some((n, t)) => {
            if str_eq(n.as_str(), word) {
                Option::Some(param_hover(word, t, "Rest parameter of `", &f))
            } else {
                Option::None
            }
        },
        Option::None => Option::None,
    }
}

/// The signature shown when hovering a built-in method's name.
pub open spec fn method_hover_v(name: Seq<char>) -> Option<Seq<char>> {
    if name == "push"@ {
        Option::Some("array.push(val: some) -> array"@)
    } else if name == "pop"@ {
        Option::Some("array.pop() -> some | none"@)
    } else if name == "join"@ {
        Option::Some("array.join(sep: str) -> str"@)
    } else if name == "indexOf"@ {
        Option::Some("array.indexOf(val: some) -> int | none\nstr.indexOf(sub: str) -> int | none"@)
    } else if name == "contains"@ {
        Option::Some("array.contains(val: some) -> some | none\nstr.contains(sub: str) -> str | none"@)
    } else if name == "slice"@ {
        Option::Some("array.slice(start: int, end: int) -> array\nstr.slice(start: int, end: int) -> str"@)
    } else if name == "split"@ {
        Option::Some("str.split(sep: str) -> [str]"@)
    } else if name == "trim"@ {
        Option::Some("str.trim() -> str"@)
    } else if name == "upper"@ {
        Option::Some("str.upper() -> str"@)
    } else if name == "lower"@ {
        Option::Some("str.lower() -> str"@)
    } else if name == "replace"@ {
        Option::Some("str.replace(from: str, to: str) -> str"@)
    } else if name == "starts-with"@ {
        Option::Some("str.starts-with(prefix: str) -> str | none"@)
    } else if name == "ends-with"@ {
        Option::Some("str.ends-with(suffix: str) -> str | none"@)
    } else {
        Option::None
    }
}

/// The signature of the built-in method `name`, shown on hover.
pub fn builtin_method_hover(name: &str) -> (r: Option<&'static str>)
    ensures
        match r {
            Option::Some(t) => method_hover_v(name@) == Option::Some(t@),
            Option::None => method_hover_v(name@) is None,
        },
{
    if str_eq(name, "push") {
        Option::Some("array.push(val: some) -> array")
    } else if str_eq(name, "pop") {
        Option::Some("array.pop() -> some | none")
    } else if str_eq(name, "join") {
        Option::Some("array.join(sep: str) -> str")
    } else if str_eq(name, "indexOf") {
        Option::Some("array.indexOf(val: some) -> int | none\nstr.indexOf(sub: str) -> int | none")
    } else if str_eq(name, "contains") {
        Option::Some("array.contains(val: some) -> some | none\nstr.contains(sub: str) -> str | none")
    } else if str_eq(name, "slice") {
        Option::Some("array.slice(start: int, end: int) -> array\nstr.slice(start: int, end: int) -> str")
    } else if str_eq(name, "split") {
        Option::Some("str.split(sep: str) -> [str]")
    } else if str_eq(name, "trim") {
        Option::Some("str.trim() -> str")
    } else if str_eq(name, "upper") {
        Option::Some("str.upper() -> str")
    } else if str_eq(name, "lower") {
        Option::Some("str.lower() -> str")
    } else if str_eq(name, "replace") {
        Option::Some("str.replace(from: str, to: str) -> str")
    } else if str_eq(name, "starts-with") {
        Option::Some("str.starts-with(prefix: str) -> str | none")
    } else if str_eq(name, "ends-with") {
        Option::Some("str.ends-with(suffix: str) -> str | none")
    } else {
        Option::None
    }
}

// ── Hover at a position ─────────────────────────────────────────────────

/// Whether `a` ends with `b`.
pub open spec fn ends_with_v(a: Seq<char>, b: Seq<char>) -> bool {
    b.len() <= a.len() && a.skip(a.len() - b.len()) == b
}

/// Whether `w` names a built-in type.
pub open spec fn type_name_v(w: Seq<char>) -> bool {
    w == "str"@ || w == "int"@ || w == "num"@ || w == "bool"@ || w == "some"@ || w == "none"@
        || w == "null"@ || w == "unknown"@ || w == "never"@
}

/// The index of the first of the first `n` spans that covers exactly bytes
/// `a` to `b`, or -1.
pub open spec fn exact_span(spans: Seq<(usize, usize, Type)>, a: int, b: int, n: int) -> int
    decreases n,
{
    if n <= 0 || n > spans.len() {
        -1
    } else {
        let k = exact_span(spans, a, b, n - 1);
        if k >= 0 {
            k
        } else if spans[n - 1].0 == a && spans[n - 1].1 == b {
            n - 1
        } else {
            -1
        }
    }
}

/// The index of the first of the shortest among the first `n` spans that
/// contain byte `offset`, or -1.
pub open spec fn smallest_span(spans: Seq<(usize, usize, Type)>, offset: int, n: int) -> int
    decreases n,
{
    if n <= 0 || n > spans.len() {
        -1
    } else {
        let k = smallest_span(spans, offset, n - 1);
        let e = spans[n - 1];
        if e.0 <= offset < e.1 && (k < 0 || e.1 - e.0 < spans[k].1 - spans[k].0) {
            n - 1
        } else {
            k
        }
    }
}

/// The hover for an inferred type: the text of the span (bytes `a` to `b`
/// of `s`) and its type written with `aliases`, or `type` for a type name
/// that is its own type.
pub open spec fn span_hover(s: Seq<char>, a: int, b: int, ty: TypeV, aliases: Seq<(Seq<char>, TypeV)>) -> Seq<char> {
    let ca = chars_before(s, a);
    let cb = chars_before(s, b);
    let label = if ca <= cb {
        s.subrange(ca, cb)
    } else {
        Seq::empty()
    };
    let t = fmt_alias_v(ty, aliases, true);
    let shown = if t == label && type_name_v(label) {
        "type"@
    } else {
        t
    };
    "```rex\n"@ + label + ": "@ + shown + "\n```"@
}

/// The hover at the 0-based (`line`, `character`) position of `s` (whose
/// tree is `root`): for the dotted name there (when the cursor is past its
/// first part) or the word there, the schema's hover (in a type context
/// inside a type or in a declaration file, `rexd`); in a declaration file,
/// the hover of a parameter; after a `.`, a built-in method; a function
/// declared in the document (`inline_fns`); else the type inferred for the
/// word's span (`spans`: byte ranges and types), the exact span first, else
/// the shortest one around the position.
pub open spec fn hover_at_v(
    schema: DomainSchema,
    root: Node,
    s: Seq<char>,
    line: int,
    character: int,
    rexd: bool,
    inline_fns: Seq<(String, FunctionSig)>,
    spans: Seq<(usize, usize, Type)>,
    aliases: Seq<(Seq<char>, TypeV)>,
) -> Option<Seq<char>> {
    let p = position_index(s, line, character);
    let word = word_around(s, p, false);
    let dot = word_around(s, p, true);
    let offset = utf8_len(s.take(p)) as int;
    let ctx = rexd || in_type(Element::Node(root), 0, offset, false);
    let ws = word_start(s, p, false);
    let after_dot = ws > 0 && s[ws - 1] == '.';
    let a = utf8_len(s.take(ws)) as int;
    let b = utf8_len(s.take(word_end(s, p, false))) as int;
    let ex = exact_span(spans, a, b, spans.len() as int);
    let pick = if ex >= 0 {
        ex
    } else {
        smallest_span(spans, offset, spans.len() as int)
    };
    if word.len() == 0 {
        Option::None
    } else if dot.len() > 0 && dot != word && ends_with_v(dot, word) && hover_v(schema, dot, ctx) is Some {
        hover_v(schema, dot, ctx)
    } else if hover_v(schema, word, ctx) is Some {
        hover_v(schema, word, ctx)
    } else if rexd && rexd_param_hover_v(schema, s, line, word) is Some {
        rexd_param_hover_v(schema, s, line, word)
    } else if after_dot && method_hover_v(word) is Some {
        Option::Some("```rex\n"@ + method_hover_v(word).unwrap() + "\n```"@)
    } else if function_of(inline_fns, word) is Some {
        Option::Some("```rex\nextern "@ + signature_text(word, function_of(inline_fns, word).unwrap()) + "\n```"@)
    } else if 0 <= pick < spans.len() {
        Option::Some(span_hover(s, spans[pick].0 as int, spans[pick].1 as int, spans[pick].2@, aliases))
    } else {
        Option::None
    }
}

/// The number of bytes of the first `k` characters of `chars`.
fn prefix_bytes(chars: &Vec<char>, k: usize, total: usize) -> (r: usize)
    requires
        k <= chars@.len(),
        total == utf8_len(chars@),
    ensures
        r == utf8_len(chars@.take(k as int)),
{
    let ghost s = chars@;
    let mut n: usize = 0;
    let mut i: usize = 0;
    proof {
        assert(s.take(0) =~= Seq::<char>::empty());
    }
    while i < k
        invariant
            0 <= i <= k <= s.len(),
            chars@ == s,
            total == utf8_len(s),
            n == utf8_len(s.take(i as int)),
        decreases k - i,
    {
        let c = chars[i];
        proof {
            assert(s.take(i + 1) =~= s.take(i as int) + seq![c]);
            lemma_utf8_len_add(s.take(i as int), seq![c]);
            assert(seq![c].drop_last() =~= Seq::<char>::empty());
            assert(utf8_len(Seq::<char>::empty()) == 0);
            assert(utf8_len(seq![c]) == utf8_width(c));
            assert(s.take(i + 1) + s.skip(i + 1) =~= s);
            lemma_utf8_len_add(s.take(i + 1), s.skip(i + 1));
        }
        n = n + char_width(c);
        i += 1;
    }
    n
}

/// The number of characters of `chars` that start before byte `offset`.
fn char_index_at(chars: &Vec<char>, offset: usize, total: usize) -> (r: usize)
    requires
        total == utf8_len(chars@),
    ensures
        r == chars_before(chars@, offset as int),
        r <= chars@.len(),
{
    let ghost s = chars@;
    let mut byte: usize = 0;
    let mut j: usize = 0;
    proof {
        assert(s.take(0) =~= Seq::<char>::empty());
    }
    while j < chars.len() && byte < offset
        invariant
            0 <= j <= s.len(),
            chars@ == s,
            total == utf8_len(s),
            byte == utf8_len(s.take(j as int)),
            chars_before_from(s, offset as int, 0) == chars_before_from(s, offset as int, j as int),
        decreases s.len() - j,
    {
        let c = chars[j];
        proof {
            assert(s.take(j + 1) =~= s.take(j as int) + seq![c]);
            lemma_utf8_len_add(s.take(j as int), seq![c]);
            assert(seq![c].drop_last() =~= Seq::<char>::empty());
            assert(utf8_len(Seq::<char>::empty()) == 0);
            assert(utf8_len(seq![c]) == utf8_width(c));
            assert(s.take(j + 1) + s.skip(j + 1) =~= s);
            lemma_utf8_len_add(s.take(j + 1), s.skip(j + 1));
        }
        byte = byte + char_width(c);
        j += 1;
    }
    j
}

/// Whether `a` ends with `b`.
fn chars_end_with(a: &Vec<char>, b: &Vec<char>) -> (r: bool)
    ensures
        r == ends_with_v(a@, b@),
{
    if b.len() > a.len() {
        return false;
    }
    let al = a.len();
    let d = al - b.len();
    let mut i: usize = 0;
    while i < b.len()
        invariant
            al == a@.len(),
            d == a@.len() - b@.len(),
            b@.len() <= a@.len(),
            0 <= i <= b@.len(),
            forall|k: int| 0 <= k < i ==> a@[d + k] == b@[k],
        decreases b@.len() - i,
    {
        assert(d + i < a@.len());
        if a[d + i] != b[i] {
            proof {
                assert(a@.skip(d as int)[i as int] != b@[i as int]);
            }
            return false;
        }
        i += 1;
    }
    proof {
        assert(a@.skip(d as int) =~= b@);
    }
    true
}

/// The index of the exact span (see `exact_span`), else of the shortest
/// span around `offset` (see `smallest_span`), or the number of spans.
fn pick_span(spans: &Vec<(usize, usize, Type)>, a: usize, b: usize, offset: usize) -> (r: usize)
    requires
        forall|i: int| 0 <= i < spans@.len() ==> (#[trigger] spans@[i]).0 <= spans@[i].1,
    ensures
        r <= spans@.len(),
        ({
            let ex = exact_span(spans@, a as int, b as int, spans@.len() as int);
            let pick = if ex >= 0 {
                ex
            } else {
                smallest_span(spans@, offset as int, spans@.len() as int)
            };
            (r < spans@.len() ==> pick == r) && (r == spans@.len() ==> !(0 <= pick < spans@.len()))
        }),
{
    let n = spans.len();
    let mut ex: usize = n;
    let mut sm: usize = n;
    let mut i: usize = 0;
    while i < n
        invariant
            n == spans@.len(),
            forall|i: int| 0 <= i < spans@.len() ==> (#[trigger] spans@[i]).0 <= spans@[i].1,
            0 <= i <= n,
            ex <= n,
            sm <= n,
            ex < n ==> exact_span(spans@, a as int, b as int, i as int) == ex && ex < i,
            ex == n ==> exact_span(spans@, a as int, b as int, i as int) == -1,
            sm < n ==> smallest_span(spans@, offset as int, i as int) == sm && sm < i,
            sm == n ==> smallest_span(spans@, offset as int, i as int) == -1,
        decreases n - i,
    {
        let e = &spans[i];
        if ex == n && e.0 == a && e.1 == b {
            ex = i;
        }
        if e.0 <= offset && offset < e.1 {
            if sm == n {
                sm = i;
            } else {
                let cur = &spans[sm];
                if e.1 - e.0 < cur.1 - cur.0 {
                    sm = i;
                }
            }
        }
        i += 1;
    }
    if ex < n {
        ex
    } else {
        sm
    }
}

/// The hover at the 0-based (`line`, `character`) position of `source` (see
/// `hover_at_v`). `rexd` tells whether the document is a declaration file;
/// `inline_fns` are the functions it declares, `span_types` the types
/// inferred for byte ranges of it, and `aliases` the type aliases in scope
/// (no two with the same name).
pub fn hover_at(
    schema: &DomainSchema,
    source: &str,
    line: u32,
    character: u32,
    rexd: bool,
    inline_fns: &Vec<(String, FunctionSig)>,
    span_types: &Vec<(usize, usize, Type)>,
    aliases: &Vec<(String, Type)>,
) -> (r: Option<String>)
    requires
        source@.len() < u32::MAX,
        source@.len() + 4 <= usize::MAX,
        forall|i: int| 0 <= i < span_types@.len() ==> (#[trigger] span_types@[i]).0 <= span_types@[i].1,
        distinct_names(field_views(aliases@)),
    ensures
        exists|root: Node|
            tree_of(root, source@) && match r {
                Option::Some(t) => hover_at_v(*schema, root, source@, line as int, character as int, rexd,
                    inline_fns@, span_types@, field_views(aliases@)) == Option::Some(t@),
                Option::None => hover_at_v(*schema, root, source@, line as int, character as int, rexd,
                    inline_fns@, span_types@, field_views(aliases@)) is None,
            },
{
    let root = crate::parser::parse(source);
    let ghost s = source@;
    let ghost spec_r = hover_at_v(*schema, root, s, line as int, character as int, rexd, inline_fns@,
        span_types@, field_views(aliases@));
    proof {
        assert(tree_of(root, s));
    }
    let chars = str_chars(source);
    let total = byte_len(source);
    let (p, offset) = position_of(&chars, line, character);
    proof {
        lemma_position_index(s, line as int, character as int, 0);
    }
    let ws = start_of_word(&chars, p, false);
    let we = end_of_word(&chars, p, false);
    if ws == we {
        proof {
            assert(word_around(s, p as int, false).len() == 0);
        }
        return Option::None;
    }
    let word = chars_slice_to_string(&chars, ws, we);
    let ds = start_of_word(&chars, p, true);
    let de = end_of_word(&chars, p, true);
    let dot = chars_slice_to_string(&chars, ds, de);
    let dotv = str_chars(dot.as_str());
    let wordv = str_chars(word.as_str());
    let ctx = rexd || in_type_at(&root, source, offset);
    if ds < de && !crate::lexer::word_is(dotv.as_slice(), wordv.as_slice()) && chars_end_with(&dotv, &wordv) {
        match hover(schema, dot.as_str(), ctx) {
            Option::Some(t) => {
                return Option::Some(t);
            },
            Option::None => {},
        }
    }
    match hover(schema, word.as_str(), ctx) {
        Option::Some(t) => {
            return Option::Some(t);
        },
        Option::None => {},
    }
    if rexd {
        match hover_rexd_param(schema, source, line, word.as_str()) {
            Option::Some(t) => {
                return Option::Some(t);
            },
            Option::None => {},
        }
    }
    let after_dot = ws > 0 && chars[ws - 1] == '.';
    if after_dot {
        match builtin_method_hover(word.as_str()) {
            Option::Some(desc) => {
                let mut text = str_to_string("```rex\n");
                push_str(&mut text, desc);
                push_str(&mut text, "\n```");
                return Option::Some(text);
            },
            Option::None => {},
        }
    }
    match find_function(inline_fns, word.as_str()) {
        Option::Some(i) => {
            let mut text = str_to_string("```rex\nextern ");
            push_signature(&mut text, word.as_str(), &inline_fns[i].1);
            push_str(&mut text, "\n```");
            return Option::Some(text);
        },
        Option::None => {},
    }
    assert(chars@ == s && total == utf8_len(s));
    let a = prefix_bytes(&chars, ws, total);
    let b = prefix_bytes(&chars, we, total);
    let k = pick_span(span_types, a, b, offset);
    if k >= span_types.len() {
        return Option::None;
    }
    let entry = &span_types[k];
    let ca = char_index_at(&chars, entry.0, total);
    let cb = char_index_at(&chars, entry.1, total);
    let label = if ca <= cb {
        chars_slice_to_string(&chars, ca, cb)
    } else {
        String::new()
    };
    let t = format_type_with_aliases(&entry.2, aliases);
    let shown = if str_eq(t.as_str(), label.as_str()) && is_type_name(label.as_str()) {
        str_to_string("type")
    } else {
        t
    };
    let mut text = str_to_string("```rex\n");
    push_str(&mut text, label.as_str());
    push_str(&mut text, ": ");
    push_str(&mut text, shown.as_str());
    push_str(&mut text, "\n```");
    proof {
        assert(label@ == (if ca <= cb {
            s.subrange(ca as int, cb as int)
        } else {
            Seq::<char>::empty()
        }));
        assert(text@ == span_hover(s, entry.0 as int, entry.1 as int, entry.2@, field_views(aliases@)));
    }
    Option::Some(text)
}

} // verus!
