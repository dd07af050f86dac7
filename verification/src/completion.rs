//! Completion candidates for the editor: what may follow the text before
//! the cursor, drawn from the domain schema and the keywords of the language.

use vstd::prelude::*;
use crate::editor::format_type;
use crate::env::{DomainSchema, FunctionSig, GlobalEntry, find_global, global_of, global_names};
use crate::heap::{lemma_str_index, str_index};
use crate::hover::{fmt_ty, has_prefix, push_signature, signature_text, str_has_prefix};
use crate::text::{chars_slice_to_string, push_str, str_chars, str_eq, str_to_string};
use crate::types::{Type, TypeV, field_views};

verus! {

/// What a completion candidate names.
#[derive(Debug, Clone, Copy, PartialEq, Eq, Structural)]
pub enum CompletionKind {
    Function,
    Property,
    Variable,
    Module,
    Class,
    Keyword,
}

/// One completion candidate: the text to insert, a one-line detail, what it
/// names, and its documentation.
pub struct CompletionItem {
    pub label: String,
    pub detail: String,
    pub kind: CompletionKind,
    pub documentation: Option<String>,
}

/// The model of a completion candidate.
pub type ItemV = (Seq<char>, Seq<char>, CompletionKind, Option<Seq<char>>);

/// The model of an optional string.
pub open spec fn opt_view(o: Option<String>) -> Option<Seq<char>> {
    match o {
        Option::Some(s) => Option::Some(s@),
        Option::None => Option::None,
    }
}

impl View for CompletionItem {
    type V = ItemV;

    open spec fn view(&self) -> ItemV {
        (self.label@, self.detail@, self.kind, opt_view(self.documentation))
    }
}

/// The models of a sequence of candidates.
pub open spec fn items_v(v: Seq<CompletionItem>) -> Seq<ItemV> {
    Seq::new(v.len(), |i: int| v[i]@)
}

/// Index of the last `.` in `s`, or -1.
pub open spec fn last_dot(s: Seq<char>) -> int
    decreases s.len(),
{
    if s.len() == 0 {
        -1
    } else if s.last() == '.' {
        s.len() - 1
    } else {
        last_dot(s.drop_last())
    }
}

/// Index of the first `.` in `s` at or after `i`, or -1.
pub open spec fn first_dot_from(s: Seq<char>, i: int) -> int
    decreases s.len() - i,
{
    if i < 0 || i >= s.len() {
        -1
    } else if s[i] == '.' {
        i
    } else {
        first_dot_from(s, i + 1)
    }
}

/// The functions named `p` followed by a method name, as candidates for
/// that method name, in table order.
pub open spec fn function_items(fs: Seq<(String, FunctionSig)>, p: Seq<char>) -> Seq<ItemV>
    decreases fs.len(),
{
    if fs.len() == 0 {
        Seq::empty()
    } else {
        let rest = function_items(fs.drop_last(), p);
        let name = fs.last().0@;
        let sig = fs.last().1;
        if has_prefix(name, p) {
            rest.push(
                (
                    name.skip(p.len() as int),
                    signature_text(Seq::empty(), sig),
                    CompletionKind::Function,
                    opt_view(sig.doc),
                ),
            )
        } else {
            rest
        }
    }
}

/// The fields of an object type as property candidates.
pub open spec fn property_items(fields: Seq<(Seq<char>, TypeV)>) -> Seq<ItemV> {
    Seq::new(
        fields.len(),
        |i: int| (fields[i].0, fmt_ty(fields[i].1), CompletionKind::Property, Option::None),
    )
}

/// The properties of the global `name`, when its type is an object.
pub open spec fn global_property_items(gs: Seq<(String, GlobalEntry)>, name: Seq<char>) -> Seq<
    ItemV,
> {
    match global_of(gs, name) {
        Option::Some(e) => match e.ty@ {
            TypeV::Object { fields, .. } => property_items(fields),
            _ => Seq::empty(),
        },
        Option::None => Seq::empty(),
    }
}

/// The globals as variable candidates.
pub open spec fn global_items(gs: Seq<(String, GlobalEntry)>) -> Seq<ItemV> {
    Seq::new(
        gs.len(),
        |i: int| (gs[i].0@, fmt_ty(gs[i].1.ty@), CompletionKind::Variable, opt_view(gs[i].1.doc)),
    )
}

/// The namespaces of the functions (what comes before the first `.` of a
/// dotted name), each once, in order of first appearance.
pub open spec fn namespaces(fs: Seq<(String, FunctionSig)>) -> Seq<Seq<char>>
    decreases fs.len(),
{
    if fs.len() == 0 {
        Seq::empty()
    } else {
        let rest = namespaces(fs.drop_last());
        let name = fs.last().0@;
        let d = first_dot_from(name, 0);
        if d >= 0 && !rest.contains(name.take(d)) {
            rest.push(name.take(d))
        } else {
            rest
        }
    }
}

/// The namespaces that are not also globals, as module candidates.
pub open spec fn module_items(nss: Seq<Seq<char>>, gs: Seq<(String, GlobalEntry)>) -> Seq<ItemV>
    decreases nss.len(),
{
    if nss.len() == 0 {
        Seq::empty()
    } else {
        let rest = module_items(nss.drop_last(), gs);
        if str_index(global_names(gs), nss.last()) >= 0 {
            rest
        } else {
            rest.push((nss.last(), "namespace"@, CompletionKind::Module, Option::None))
        }
    }
}

/// The type aliases as class candidates.
pub open spec fn alias_items(aliases: Seq<(Seq<char>, TypeV)>) -> Seq<ItemV> {
    Seq::new(
        aliases.len(),
        |i: int| (aliases[i].0, fmt_ty(aliases[i].1), CompletionKind::Class, Option::None),
    )
}

/// A keyword as a candidate.
pub open spec fn keyword_item(k: Seq<char>) -> ItemV {
    (k, "keyword"@, CompletionKind::Keyword, Option::None)
}

/// The keywords of the language as candidates.
pub open spec fn keyword_items() -> Seq<ItemV> {
    seq![
        keyword_item("when"@),
        keyword_item("unless"@),
        keyword_item("else"@),
        keyword_item("while"@),
        keyword_item("for"@),
        keyword_item("do"@),
        keyword_item("end"@),
        keyword_item("break"@),
        keyword_item("continue"@),
        keyword_item("and"@),
        keyword_item("or"@),
        keyword_item("in"@),
        keyword_item("of"@),
        keyword_item("true"@),
        keyword_item("false"@),
        keyword_item("null"@),
        keyword_item("none"@),
        keyword_item("return"@),
        keyword_item("delete"@),
        keyword_item("type"@),
        keyword_item("extern"@),
        keyword_item("mut"@),
    ]
}

/// The candidates for the text `prefix` before the cursor. With a `.` in
/// it, the part before the last `.` is a namespace: its functions and, for
/// a global object, its properties. Without one: the globals, the function
/// namespaces that are not globals, the type aliases and the keywords.
pub open spec fn completions_v(schema: DomainSchema, prefix: Seq<char>) -> Seq<ItemV> {
    let d = last_dot(prefix);
    if d >= 0 {
        let ns = prefix.take(d);
        function_items(schema.functions@, ns + seq!['.']) + global_property_items(
            schema.globals@,
            ns,
        )
    } else {
        global_items(schema.globals@) + module_items(namespaces(schema.functions@), schema.globals@)
            + alias_items(field_views(schema.type_aliases@)) + keyword_items()
    }
}

proof fn lemma_last_dot(s: Seq<char>)
    ensures
        -1 <= last_dot(s) < s.len(),
        last_dot(s) >= 0 ==> s[last_dot(s)] == '.',
        forall|j: int| last_dot(s) < j < s.len() ==> s[j] != '.',
    decreases s.len(),
{
    if s.len() > 0 {
        lemma_last_dot(s.drop_last());
        assert(forall|j: int| 0 <= j < s.len() - 1 ==> s[j] == s.drop_last()[j]);
    }
}

proof fn lemma_first_dot(s: Seq<char>, i: int)
    requires
        0 <= i,
    ensures
        first_dot_from(s, i) == -1 || (i <= first_dot_from(s, i) < s.len() && s[first_dot_from(
            s,
            i,
        )] == '.'),
    decreases s.len() - i,
{
    if i < s.len() {
        lemma_first_dot(s, i + 1);
    }
}

/// Appends one candidate.
fn push_item(
    items: &mut Vec<CompletionItem>,
    label: String,
    detail: String,
    kind: CompletionKind,
    documentation: Option<String>,
)
    ensures
        items_v(final(items)@) == items_v(old(items)@).push(
            (label@, detail@, kind, opt_view(documentation)),
        ),
{
    let ghost before = items@;
    items.push(CompletionItem { label, detail, kind, documentation });
    proof {
        assert(items_v(items@) =~= items_v(before).push(items@.last()@));
    }
}

/// A copy of an optional documentation string.
fn copy_doc(d: &Option<String>) -> (r: Option<String>)
    ensures
        opt_view(r) == opt_view(*d),
{
    match d {
        Option::Some(s) => Option::Some(str_to_string(s.as_str())),
        Option::None => Option::None,
    }
}

/// Index of the last `.` in `cs`.
fn find_last_dot(cs: &Vec<char>) -> (r: Option<usize>)
    ensures
        match r {
            Option::Some(i) => last_dot(cs@) == i && i < cs@.len(),
            Option::None => last_dot(cs@) == -1,
        },
{
    let mut i: usize = cs.len();
    proof {
        assert(cs@.take(i as int) =~= cs@);
    }
    while i > 0
        invariant
            0 <= i <= cs@.len(),
            last_dot(cs@) == last_dot(cs@.take(i as int)),
        decreases i,
    {
        proof {
            assert(cs@.take(i as int).drop_last() =~= cs@.take(i - 1));
        }
        if cs[i - 1] == '.' {
            return Option::Some(i - 1);
        }
        i -= 1;
    }
    proof {
        assert(cs@.take(0) =~= Seq::<char>::empty());
    }
    Option::None
}

/// Index of the first `.` in `cs`.
fn find_first_dot(cs: &Vec<char>) -> (r: Option<usize>)
    ensures
        match r {
            Option::Some(i) => first_dot_from(cs@, 0) == i && i < cs@.len(),
            Option::None => first_dot_from(cs@, 0) == -1,
        },
{
    let mut i: usize = 0;
    while i < cs.len()
        invariant
            0 <= i <= cs@.len(),
            first_dot_from(cs@, 0) == first_dot_from(cs@, i as int),
        decreases cs@.len() - i,
    {
        if cs[i] == '.' {
            return Option::Some(i);
        }
        i += 1;
    }
    Option::None
}

/// Whether some string of `v` equals `s`.
fn position_in(v: &Vec<String>, s: &str) -> (r: bool)
    ensures
        r == Seq::new(v@.len(), |i: int| v@[i]@).contains(s@),
{
    let ghost vs = Seq::new(v@.len(), |i: int| v@[i]@);
    let mut i: usize = 0;
    while i < v.len()
        invariant
            0 <= i <= v@.len(),
            vs == Seq::new(v@.len(), |i: int| v@[i]@),
            forall|j: int| 0 <= j < i ==> vs[j] != s@,
        decreases v@.len() - i,
    {
        if str_eq(v[i].as_str(), s) {
            proof {
                assert(vs[i as int] == s@);
            }
            return true;
        }
        i += 1;
    }
    false
}

/// The namespaces of the functions, each once, in order of first appearance.
fn collect_namespaces(fs: &Vec<(String, FunctionSig)>) -> (r: Vec<String>)
    ensures
        Seq::new(r@.len(), |i: int| r@[i]@) == namespaces(fs@),
{
    let mut out: Vec<String> = Vec::new();
    let mut k: usize = 0;
    while k < fs.len()
        invariant
            0 <= k <= fs@.len(),
            Seq::new(out@.len(), |i: int| out@[i]@) == namespaces(fs@.take(k as int)),
        decreases fs@.len() - k,
    {
        let ghost before = out@;
        proof {
            assert(fs@.take(k + 1).drop_last() =~= fs@.take(k as int));
        }
        let name = str_chars(fs[k].0.as_str());
        match find_first_dot(&name) {
            Option::Some(d) => {
                let ns = chars_slice_to_string(&name, 0, d);
                proof {
                    assert(name@.subrange(0, d as int) =~= name@.take(d as int));
                }
                if !position_in(&out, ns.as_str()) {
                    out.push(ns);
                    proof {
                        assert(Seq::new(out@.len(), |i: int| out@[i]@) =~= Seq::new(
                            before.len(),
                            |i: int| before[i]@,
                        ).push(name@.take(d as int)));
                    }
                }
            },
            Option::None => {},
        }
        k += 1;
    }
    proof {
        assert(fs@.take(fs@.len() as int) =~= fs@);
    }
    out
}

/// The candidates for the text `prefix` before the cursor (see `completions_v`).
pub fn completions(schema: &DomainSchema, prefix: &str) -> (r: Vec<CompletionItem>)
    ensures
        items_v(r@) == completions_v(*schema, prefix@),
{
    let mut items: Vec<CompletionItem> = Vec::new();
    let pc = str_chars(prefix);
    proof {
        lemma_last_dot(prefix@);
    }
    match find_last_dot(&pc) {
        Option::Some(d) => {
            let ns = chars_slice_to_string(&pc, 0, d);
            proof {
                assert(pc@.subrange(0, d as int) =~= prefix@.take(d as int));
            }
            let mut fn_prefix = str_to_string(ns.as_str());
            push_str(&mut fn_prefix, ".");
            let ghost p = ns@ + seq!['.'];
            proof {
                reveal_strlit(".");
                assert(fn_prefix@ =~= p);
            }
            let fs = &schema.functions;
            let mut k: usize = 0;
            proof {
                assert(fs@.take(0) =~= Seq::<(String, FunctionSig)>::empty());
                assert(items_v(items@) =~= Seq::<ItemV>::empty());
            }
            while k < fs.len()
                invariant
                    0 <= k <= fs@.len(),
                    fs == &schema.functions,
                    fn_prefix@ == p,
                    items_v(items@) == function_items(fs@.take(k as int), p),
                decreases fs@.len() - k,
            {
                proof {
                    assert(fs@.take(k + 1).drop_last() =~= fs@.take(k as int));
                }
                let name = &fs[k].0;
                let sig = &fs[k].1;
                if str_has_prefix(name.as_str(), fn_prefix.as_str()) {
                    let nc = str_chars(name.as_str());
                    let plen = str_chars(fn_prefix.as_str()).len();
                    let short = chars_slice_to_string(&nc, plen, nc.len());
                    proof {
                        assert(nc@.subrange(plen as int, nc@.len() as int) =~= name@.skip(
                            p.len() as int,
                        ));
                    }
                    let mut detail = String::new();
                    push_signature(&mut detail, "", sig);
                    proof {
                        reveal_strlit("");
                        assert(Seq::<char>::empty() + signature_text(""@, *sig) =~= signature_text(
                            Seq::empty(),
                            *sig,
                        ));
                    }
                    let doc = copy_doc(&sig.doc);
                    push_item(&mut items, short, detail, CompletionKind::Function, doc);
                }
                k += 1;
            }
            proof {
                assert(fs@.take(fs@.len() as int) =~= fs@);
            }
            let ghost fn_part = items_v(items@);
            match find_global(&schema.globals, ns.as_str()) {
                Option::Some(g) => {
                    let entry = &schema.globals[g].1;
                    match &entry.ty {
                        Type::Object { fields, .. } => {
                            let mut j: usize = 0;
                            let ghost fv = field_views(fields@);
                            while j < fields.len()
                                invariant
                                    0 <= j <= fields@.len(),
                                    fv == field_views(fields@),
                                    items_v(items@) == fn_part + property_items(fv.take(j as int)),
                                decreases fields@.len() - j,
                            {
                                let t = format_type(&fields[j].1);
                                let key = str_to_string(fields[j].0.as_str());
                                push_item(&mut items, key, t, CompletionKind::Property, Option::None);
                                proof {
                                    assert(property_items(fv.take(j + 1)) =~= property_items(
                                        fv.take(j as int),
                                    ).push(
                                        (fv[j as int].0, fmt_ty(fv[j as int].1), CompletionKind::Property, Option::None),
                                    ));
                                }
                                j += 1;
                            }
                            proof {
                                assert(fv.take(fields@.len() as int) =~= fv);
                            }
                        },
                        _ => {
                            proof {
                                assert(fn_part + Seq::<ItemV>::empty() =~= fn_part);
                            }
                        },
                    }
                },
                Option::None => {
                    proof {
                        assert(fn_part + Seq::<ItemV>::empty() =~= fn_part);
                    }
                },
            }
        },
        Option::None => {
            let gs = &schema.globals;
            let mut j: usize = 0;
            proof {
                assert(items_v(items@) =~= global_items(gs@.take(0)));
            }
            while j < gs.len()
                invariant
                    0 <= j <= gs@.len(),
                    gs == &schema.globals,
                    items_v(items@) == global_items(gs@.take(j as int)),
                decreases gs@.len() - j,
            {
                let t = format_type(&gs[j].1.ty);
                let name = str_to_string(gs[j].0.as_str());
                let doc = copy_doc(&gs[j].1.doc);
                push_item(&mut items, name, t, CompletionKind::Variable, doc);
                proof {
                    assert(global_items(gs@.take(j + 1)) =~= global_items(gs@.take(j as int)).push(
                        (
                            gs@[j as int].0@,
                            fmt_ty(gs@[j as int].1.ty@),
                            CompletionKind::Variable,
                            opt_view(gs@[j as int].1.doc),
                        ),
                    ));
                }
                j += 1;
            }
            proof {
                assert(gs@.take(gs@.len() as int) =~= gs@);
            }
            let nss = collect_namespaces(&schema.functions);
            let ghost nv = Seq::new(nss@.len(), |i: int| nss@[i]@);
            let ghost before_mod = items_v(items@);
            let mut m: usize = 0;
            proof {
                assert(nv.take(0) =~= Seq::<Seq<char>>::empty());
                assert(before_mod + module_items(nv.take(0), gs@) =~= before_mod);
            }
            while m < nss.len()
                invariant
                    0 <= m <= nss@.len(),
                    nv == Seq::new(nss@.len(), |i: int| nss@[i]@),
                    gs == &schema.globals,
                    items_v(items@) == before_mod + module_items(nv.take(m as int), gs@),
                decreases nss@.len() - m,
            {
                proof {
                    assert(nv.take(m + 1).drop_last() =~= nv.take(m as int));
                    lemma_str_index(global_names(gs@), nv[m as int]);
                }
                match find_global(gs, nss[m].as_str()) {
                    Option::Some(_) => {},
                    Option::None => {
                        let label = str_to_string(nss[m].as_str());
                        push_item(
                            &mut items,
                            label,
                            str_to_string("namespace"),
                            CompletionKind::Module,
                            Option::None,
                        );
                    },
                }
                m += 1;
            }
            proof {
                assert(nv.take(nss@.len() as int) =~= nv);
            }
            let als = &schema.type_aliases;
            let ghost av = field_views(als@);
            let ghost before_alias = items_v(items@);
            let mut a: usize = 0;
            proof {
                assert(before_alias + alias_items(av.take(0)) =~= before_alias);
            }
            while a < als.len()
                invariant
                    0 <= a <= als@.len(),
                    av == field_views(als@),
                    items_v(items@) == before_alias + alias_items(av.take(a as int)),
                decreases als@.len() - a,
            {
                let t = format_type(&als[a].1);
                let name = str_to_string(als[a].0.as_str());
                push_item(&mut items, name, t, CompletionKind::Class, Option::None);
                proof {
                    assert(alias_items(av.take(a + 1)) =~= alias_items(av.take(a as int)).push(
                        (av[a as int].0, fmt_ty(av[a as int].1), CompletionKind::Class, Option::None),
                    ));
                }
                a += 1;
            }
            proof {
                assert(av.take(als@.len() as int) =~= av);
            }
            let ghost before_kw = items_v(items@);
            push_keyword(&mut items, "when");
            push_keyword(&mut items, "unless");
            push_keyword(&mut items, "else");
            push_keyword(&mut items, "while");
            push_keyword(&mut items, "for");
            push_keyword(&mut items, "do");
            push_keyword(&mut items, "end");
            push_keyword(&mut items, "break");
            push_keyword(&mut items, "continue");
            push_keyword(&mut items, "and");
            push_keyword(&mut items, "or");
            push_keyword(&mut items, "in");
            push_keyword(&mut items, "of");
            push_keyword(&mut items, "true");
            push_keyword(&mut items, "false");
            push_keyword(&mut items, "null");
            push_keyword(&mut items, "none");
            push_keyword(&mut items, "return");
            push_keyword(&mut items, "delete");
            push_keyword(&mut items, "type");
            push_keyword(&mut items, "extern");
            push_keyword(&mut items, "mut");
            proof {
                assert(items_v(items@) =~= before_kw + keyword_items());
            }
        },
    }
    items
}

/// Appends the keyword `k` as a candidate.
fn push_keyword(items: &mut Vec<CompletionItem>, k: &str)
    ensures
        items_v(final(items)@) == items_v(old(items)@).push(keyword_item(k@)),
{
    let label = str_to_string(k);
    let detail = str_to_string("keyword");
    push_item(items, label, detail, CompletionKind::Keyword, Option::None);
}

} // verus!
