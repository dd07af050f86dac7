//! Domain declarations (`.rexd` sources): type aliases, globals and host
//! functions, read from the syntax tree of the declarations.

use vstd::prelude::*;
use crate::definition::{trim_chars, trim_v};
use crate::env::{DomainSchema, FunctionSig, GlobalEntry};
use crate::lexer::word_is;
use crate::syntax::{
    Element, Node, SyntaxKind, Token, concat_texts, is_keyword_kind, is_trivia_kind, leaves_all,
};
use crate::text::{chars_to_string, push_char, str_eq};
use crate::types::{
    Type, TypeV, field_views, flatten_intersections, flatten_unions, join_v, lemma_join_push,
    lemma_view_shapes, unknown_v, views,
};

verus! {

// ── Elements ────────────────────────────────────────────────────────────

/// Whether `e` is a token of kind `a` or `b`, or whitespace or a comment.
pub open spec fn skipped(e: Element, a: SyntaxKind, b: SyntaxKind) -> bool {
    e matches Element::Token(t) && (is_trivia_kind(t.kind) || t.kind == a || t.kind == b)
}

/// Whether `e` is whitespace or a comment.
pub open spec fn is_trivia_elem(e: Element) -> bool {
    e matches Element::Token(t) && is_trivia_kind(t.kind)
}

/// Whether `e` is a token of kind `k`.
pub open spec fn is_token_kind(e: Element, k: SyntaxKind) -> bool {
    e matches Element::Token(t) && t.kind == k
}

/// The elements of `es` that are not whitespace or comments, in order.
pub open spec fn sig_list(es: Seq<Element>) -> Seq<Element>
    decreases es.len(),
{
    if es.len() == 0 {
        Seq::empty()
    } else if is_trivia_elem(es.last()) {
        sig_list(es.drop_last())
    } else {
        sig_list(es.drop_last()).push(es.last())
    }
}

/// `s` without its surrounding quotes.
pub open spec fn unquote(s: Seq<char>) -> Seq<char> {
    if s.len() >= 2 {
        s.subrange(1, s.len() - 1)
    } else {
        Seq::empty()
    }
}

// ── Types ───────────────────────────────────────────────────────────────

/// The type a name denotes: a built-in type, else a reference to an alias.
pub open spec fn type_name_v(s: Seq<char>) -> TypeV {
    if s == seq!['s', 't', 'r'] {
        TypeV::Str
    } else if s == seq!['i', 'n', 't'] {
        TypeV::Int
    } else if s == seq!['n', 'u', 'm'] {
        TypeV::Num
    } else if s == seq!['b', 'o', 'o', 'l'] {
        TypeV::Bool
    } else if s == seq!['s', 'o', 'm', 'e'] {
        TypeV::SomeType
    } else if s == seq!['u', 'n', 'k', 'n', 'o', 'w', 'n'] {
        unknown_v()
    } else if s == seq!['n', 'e', 'v', 'e', 'r'] {
        TypeV::Never
    } else {
        TypeV::Ref(s)
    }
}

/// The type a token denotes: `null`, `none`, a name, or a string literal.
pub open spec fn type_of_token(t: Token) -> TypeV {
    if t.kind == SyntaxKind::KwNull {
        TypeV::Null
    } else if t.kind == SyntaxKind::KwNone {
        TypeV::NoneType
    } else if t.kind == SyntaxKind::Ident {
        type_name_v(t.text@)
    } else if t.kind == SyntaxKind::DoubleString || t.kind == SyntaxKind::SingleString {
        TypeV::LiteralStr(unquote(t.text@))
    } else {
        unknown_v()
    }
}

/// The type a type expression denotes: `a | b` a union and `a & b` an
/// intersection (nested ones flattened), `[T]` an array, `{k: T, *: U}` an
/// object, `(T)` itself; anything else is unknown.
pub open spec fn type_of_elem(e: Element) -> TypeV
    decreases e, 3nat,
{
    match e {
        Element::Token(t) => type_of_token(t),
        Element::Node(n) => {
            if n.kind == SyntaxKind::BinaryExpr {
                binary_type(n.children@)
            } else if n.kind == SyntaxKind::ArrayExpr {
                TypeV::Array(
                    Box::new(first_type(n.children@, SyntaxKind::LBracket, SyntaxKind::RBracket)),
                )
            } else if n.kind == SyntaxKind::ObjectExpr {
                TypeV::Object { fields: object_fields(n.children@), wildcard: object_wildcard(n.children@) }
            } else if n.kind == SyntaxKind::GroupExpr {
                first_type(n.children@, SyntaxKind::LParen, SyntaxKind::RParen)
            } else {
                unknown_v()
            }
        },
    }
}

/// The type of the first element of `es` that is not skipped (see
/// `skipped`), or unknown.
pub open spec fn first_type(es: Seq<Element>, a: SyntaxKind, b: SyntaxKind) -> TypeV
    decreases es, 2nat,
{
    if es.len() == 0 {
        unknown_v()
    } else if skipped(es[0], a, b) {
        proof {
            assert(decreases_to!(es => es.drop_first()));
        }
        first_type(es.drop_first(), a, b)
    } else {
        type_of_elem(es[0])
    }
}

/// Index of the first token of kind `a` or `b` from `i` on, or -1.
pub open spec fn token_index(es: Seq<Element>, a: SyntaxKind, b: SyntaxKind, i: int) -> int
    decreases es.len() - i,
{
    if i < 0 || i >= es.len() {
        -1
    } else if is_token_kind(es[i], a) || is_token_kind(es[i], b) {
        i
    } else {
        token_index(es, a, b, i + 1)
    }
}

/// A found index holds a token of one of the kinds.
proof fn lemma_token_index_hit(es: Seq<Element>, a: SyntaxKind, b: SyntaxKind, i: int)
    requires
        0 <= i,
    ensures
        token_index(es, a, b, i) == -1 || (i <= token_index(es, a, b, i) < es.len() && (
        is_token_kind(es[token_index(es, a, b, i)], a) || is_token_kind(
            es[token_index(es, a, b, i)],
            b,
        ))),
    decreases es.len() - i,
{
    if i < es.len() {
        lemma_token_index_hit(es, a, b, i + 1);
    }
}

/// Index of the first `|` or `&` token from `i` on, or -1.
pub open spec fn op_index(es: Seq<Element>, i: int) -> int {
    token_index(es, SyntaxKind::Pipe, SyntaxKind::Amp, i)
}

/// The union or intersection of the two sides of the first operator.
pub open spec fn binary_type(es: Seq<Element>) -> TypeV
    decreases es, 1nat,
{
    let i = op_index(es, 0);
    if 0 <= i < es.len() {
        proof {
            assert(decreases_to!(es => es.take(i)));
            assert(decreases_to!(es => es.skip(i + 1)));
        }
        let l = first_type(es.take(i), SyntaxKind::Whitespace, SyntaxKind::Whitespace);
        let r = first_type(es.skip(i + 1), SyntaxKind::Whitespace, SyntaxKind::Whitespace);
        if is_token_kind(es[i], SyntaxKind::Amp) {
            TypeV::Intersection(flatten_intersections(seq![l, r]))
        } else {
            TypeV::Union(flatten_unions(seq![l, r]))
        }
    } else {
        unknown_v()
    }
}

/// Index of the first `:` token from `i` on, or -1.
pub open spec fn colon_index(es: Seq<Element>, i: int) -> int {
    token_index(es, SyntaxKind::Colon, SyntaxKind::Colon, i)
}

/// Whether `e` is a token spelled `mut`.
pub open spec fn is_mut_token(e: Element) -> bool {
    e matches Element::Token(t) && t.text@ == seq!['m', 'u', 't']
}

/// The key of a pair: the elements before its `:`, without a leading
/// `mut` that marks a writable field.
pub open spec fn pair_key(es: Seq<Element>) -> Seq<Element> {
    let keys = sig_list(es.take(colon_index(es, 0)));
    if keys.len() >= 2 && is_mut_token(keys[0]) {
        keys.drop_first()
    } else {
        keys
    }
}

/// Whether the pair with these children is the wildcard entry `*: T`.
pub open spec fn is_wildcard_pair(es: Seq<Element>) -> bool {
    colon_index(es, 0) >= 0 && pair_key(es).len() == 1 && is_token_kind(
        pair_key(es)[0],
        SyntaxKind::Star,
    )
}

/// The type after the `:` of a pair.
pub open spec fn pair_value(es: Seq<Element>) -> TypeV
    decreases es, 1nat,
{
    let ci = colon_index(es, 0);
    if 0 <= ci < es.len() {
        proof {
            assert(decreases_to!(es => es.skip(ci + 1)));
        }
        first_type(es.skip(ci + 1), SyntaxKind::Whitespace, SyntaxKind::Whitespace)
    } else {
        unknown_v()
    }
}

/// The named fields of an object type with these children, in order.
pub open spec fn object_fields(es: Seq<Element>) -> Seq<(Seq<char>, TypeV)>
    decreases es, 1nat,
{
    if es.len() == 0 {
        Seq::empty()
    } else {
        proof {
            assert(decreases_to!(es => es.drop_last()));
        }
        let rest = object_fields(es.drop_last());
        match es.last() {
            Element::Node(p) => {
                if p.kind == SyntaxKind::Pair && colon_index(p.children@, 0) >= 0
                    && !is_wildcard_pair(p.children@) {
                    proof {
                        assert(decreases_to!(es => es.last()));
                    }
                    rest.push(
                        (
                            match dotted_name(pair_key(p.children@)) {
                                Option::Some(k) => k,
                                Option::None => Seq::empty(),
                            },
                            pair_value(p.children@),
                        ),
                    )
                } else {
                    rest
                }
            },
            Element::Token(_) => rest,
        }
    }
}

/// The type of the last wildcard entry of an object type, if any.
pub open spec fn object_wildcard(es: Seq<Element>) -> Option<Box<TypeV>>
    decreases es, 1nat,
{
    if es.len() == 0 {
        Option::None
    } else {
        proof {
            assert(decreases_to!(es => es.drop_last()));
        }
        match es.last() {
            Element::Node(p) => {
                if p.kind == SyntaxKind::Pair && is_wildcard_pair(p.children@) {
                    proof {
                        assert(decreases_to!(es => es.last()));
                    }
                    Option::Some(Box::new(pair_value(p.children@)))
                } else {
                    object_wildcard(es.drop_last())
                }
            },
            Element::Token(_) => object_wildcard(es.drop_last()),
        }
    }
}

// ── Names ───────────────────────────────────────────────────────────────

/// The parts of a navigation `a.b.c`: names, numbers and keywords, nested
/// navigations as their dotted names.
pub open spec fn nav_parts(es: Seq<Element>) -> Seq<Seq<char>>
    decreases es, 0nat,
{
    if es.len() == 0 {
        Seq::empty()
    } else {
        proof {
            assert(decreases_to!(es => es.drop_last()));
        }
        let rest = nav_parts(es.drop_last());
        match es.last() {
            Element::Token(t) => if t.kind == SyntaxKind::Ident || t.kind == SyntaxKind::DecimalNumber
                || is_keyword_kind(t.kind) {
                rest.push(t.text@)
            } else {
                rest
            },
            Element::Node(n) => if n.kind == SyntaxKind::NavExpr {
                proof {
                    assert(decreases_to!(es => es.last()));
                }
                rest.push(nav_name(n))
            } else {
                rest
            },
        }
    }
}

/// The dotted name of a navigation.
pub open spec fn nav_name(n: Node) -> Seq<char>
    decreases n, 1nat,
{
    join_v(nav_parts(n.children@), seq!['.'])
}

/// The name a call calls: the first name or navigation before its `(`.
pub open spec fn call_name_from(es: Seq<Element>) -> Option<Seq<char>>
    decreases es.len(),
{
    if es.len() == 0 {
        Option::None
    } else {
        match es[0] {
            Element::Token(t) => if t.kind == SyntaxKind::LParen {
                Option::None
            } else if t.kind == SyntaxKind::Ident {
                Option::Some(t.text@)
            } else {
                call_name_from(es.drop_first())
            },
            Element::Node(n) => if n.kind == SyntaxKind::NavExpr {
                Option::Some(nav_name(n))
            } else {
                call_name_from(es.drop_first())
            },
        }
    }
}

/// The texts of the tokens of `parts` that are not empty and not `.`.
pub open spec fn name_texts(parts: Seq<Element>) -> Seq<Seq<char>>
    decreases parts.len(),
{
    if parts.len() == 0 {
        Seq::empty()
    } else {
        let rest = name_texts(parts.drop_last());
        match parts.last() {
            Element::Token(t) => if t.text@.len() > 0 && t.text@ != seq!['.'] {
                rest.push(t.text@)
            } else {
                rest
            },
            Element::Node(_) => rest,
        }
    }
}

/// The dotted name that `parts` spell: a single name, navigation or call,
/// else the texts of its tokens joined with dots.
pub open spec fn dotted_name(parts: Seq<Element>) -> Option<Seq<char>> {
    if parts.len() == 0 {
        Option::None
    } else if parts.len() == 1 {
        match parts[0] {
            Element::Token(t) => if t.kind == SyntaxKind::Ident {
                Option::Some(t.text@)
            } else {
                Option::None
            },
            Element::Node(n) => if n.kind == SyntaxKind::NavExpr {
                Option::Some(nav_name(n))
            } else if n.kind == SyntaxKind::CallExpr {
                call_name_from(n.children@)
            } else {
                Option::None
            },
        }
    } else if name_texts(parts).len() == 0 {
        Option::None
    } else {
        Option::Some(join_v(name_texts(parts), seq!['.']))
    }
}

// ── Schemas ─────────────────────────────────────────────────────────────

/// The model of a global of the domain.
pub struct GlobalV {
    pub ty: TypeV,
    pub mutable: bool,
    pub mutable_fields: Seq<Seq<char>>,
    pub doc: Option<Seq<char>>,
}

/// The model of a host function of the domain.
pub struct SigV {
    pub args: Seq<(Seq<char>, TypeV)>,
    pub rest: Option<(Seq<char>, TypeV)>,
    pub returns: TypeV,
    pub doc: Option<Seq<char>>,
}

/// The model of a domain schema: its entries by name, in order.
pub struct SchemaV {
    pub aliases: Seq<(Seq<char>, TypeV)>,
    pub globals: Seq<(Seq<char>, GlobalV)>,
    pub functions: Seq<(Seq<char>, SigV)>,
}

/// The model of an optional string.
pub open spec fn opt_chars(o: Option<String>) -> Option<Seq<char>> {
    match o {
        Option::Some(s) => Option::Some(s@),
        Option::None => Option::None,
    }
}

/// The model of a global.
pub open spec fn global_v(g: GlobalEntry) -> GlobalV {
    GlobalV {
        ty: g.ty@,
        mutable: g.mutable,
        mutable_fields: Seq::new(g.mutable_fields@.len(), |i: int| g.mutable_fields@[i]@),
        doc: opt_chars(g.doc),
    }
}

/// The model of a host function.
pub open spec fn sig_v(f: FunctionSig) -> SigV {
    SigV {
        args: field_views(f.args@),
        rest: match f.rest {
            Option::Some((n, t)) => Option::Some((n@, t@)),
            Option::None => Option::None,
        },
        returns: f.returns@,
        doc: opt_chars(f.doc),
    }
}

/// The model of a schema.
pub open spec fn schema_v(s: DomainSchema) -> SchemaV {
    SchemaV {
        aliases: field_views(s.type_aliases@),
        globals: Seq::new(s.globals@.len(), |i: int| (s.globals@[i].0@, global_v(s.globals@[i].1))),
        functions: Seq::new(
            s.functions@.len(),
            |i: int| (s.functions@[i].0@, sig_v(s.functions@[i].1)),
        ),
    }
}

/// Index of the first entry named `k` from `i` on, or -1.
pub open spec fn name_index_from<V>(m: Seq<(Seq<char>, V)>, k: Seq<char>, i: int) -> int
    decreases m.len() - i,
{
    if i < 0 || i >= m.len() {
        -1
    } else if m[i].0 == k {
        i
    } else {
        name_index_from(m, k, i + 1)
    }
}

/// `m` with the entry named `k` set to `v`: in place when there is one,
/// else added at the end.
pub open spec fn set_entry<V>(m: Seq<(Seq<char>, V)>, k: Seq<char>, v: V) -> Seq<(Seq<char>, V)> {
    let i = name_index_from(m, k, 0);
    if 0 <= i < m.len() {
        m.update(i, (k, v))
    } else {
        m.push((k, v))
    }
}

/// A schema with no entries.
pub open spec fn empty_schema() -> SchemaV {
    SchemaV { aliases: Seq::empty(), globals: Seq::empty(), functions: Seq::empty() }
}

/// `s` without the leading `//` marks of a comment.
pub open spec fn strip_slashes(s: Seq<char>) -> Seq<char>
    decreases s.len(),
{
    if s.len() >= 2 && s[0] == '/' && s[1] == '/' {
        strip_slashes(s.skip(2))
    } else {
        s
    }
}

/// The documentation text of a line comment.
pub open spec fn comment_text(s: Seq<char>) -> Seq<char> {
    trim_v(strip_slashes(s))
}

/// Whether `e` is a token with a non-empty text.
pub open spec fn text_token(e: Element) -> bool {
    e matches Element::Token(t) && t.text@.len() > 0
}

/// The text of a token.
pub open spec fn token_text(e: Element) -> Seq<char> {
    match e {
        Element::Token(t) => t.text@,
        Element::Node(_) => Seq::empty(),
    }
}

/// The alias that a `type Name = T` declaration declares.
pub open spec fn type_decl(n: Node) -> Option<(Seq<char>, TypeV)> {
    let cs = sig_list(n.children@);
    if cs.len() >= 4 && is_token_kind(cs[0], SyntaxKind::KwType) && text_token(cs[1])
        && is_token_kind(cs[2], SyntaxKind::Eq) {
        Option::Some((token_text(cs[1]), type_of_elem(cs[3])))
    } else {
        Option::None
    }
}

/// The fields written `mut f: T` (or `mut *: T`) in an object type.
pub open spec fn object_mut_fields(es: Seq<Element>) -> Seq<Seq<char>>
    decreases es.len(),
{
    if es.len() == 0 {
        Seq::empty()
    } else {
        let rest = object_mut_fields(es.drop_last());
        match es.last() {
            Element::Node(p) => {
                let ps = sig_list(p.children@);
                if p.kind == SyntaxKind::Pair && ps.len() >= 3 && is_mut_token(ps[0]) {
                    if is_token_kind(ps[1], SyntaxKind::Star) {
                        rest.push(seq!['*'])
                    } else if text_token(ps[1]) {
                        rest.push(token_text(ps[1]))
                    } else {
                        rest
                    }
                } else {
                    rest
                }
            },
            Element::Token(_) => rest,
        }
    }
}

/// The writable fields of the object types among `es`.
pub open spec fn mut_fields(es: Seq<Element>) -> Seq<Seq<char>>
    decreases es.len(),
{
    if es.len() == 0 {
        Seq::empty()
    } else {
        let rest = mut_fields(es.drop_last());
        match es.last() {
            Element::Node(n) => if n.kind == SyntaxKind::ObjectExpr {
                rest + object_mut_fields(n.children@)
            } else {
                rest
            },
            Element::Token(_) => rest,
        }
    }
}

/// Index of the first `=` or `:` token from `i` on, or -1.
pub open spec fn sep_index(es: Seq<Element>, i: int) -> int {
    token_index(es, SyntaxKind::Eq, SyntaxKind::Colon, i)
}

/// Index of the first token of kind `k` from `i` on, or -1.
pub open spec fn kind_index(es: Seq<Element>, k: SyntaxKind, i: int) -> int {
    token_index(es, k, k, i)
}

/// `s` after the global that `extern [mut] name: T` declares.
pub open spec fn extern_assign(s: SchemaV, a: Node, mutable: bool, doc: Option<Seq<char>>) -> SchemaV {
    let cs = sig_list(a.children@);
    let sep = sep_index(cs, 0);
    if 0 < sep < cs.len() - 1 {
        match dotted_name(cs.take(sep)) {
            Option::Some(name) => SchemaV {
                globals: set_entry(
                    s.globals,
                    name,
                    GlobalV {
                        ty: type_of_elem(cs[sep + 1]),
                        mutable,
                        mutable_fields: mut_fields(cs.skip(sep + 1)),
                        doc,
                    },
                ),
                ..s
            },
            Option::None => s,
        }
    } else {
        s
    }
}

/// The parameter that a group of arguments declares, if any: a group that
/// starts with `name: T` (the parser makes it an assignment node).
pub open spec fn param_of(ps: Seq<Element>) -> Option<(Seq<char>, TypeV)> {
    if ps.len() > 0 && (ps[0] matches Element::Node(n) && n.kind == SyntaxKind::AssignExpr) {
        match ps[0] {
            Element::Node(n) => Option::Some(typed_param(n)),
            Element::Token(_) => Option::None,
        }
    } else {
        Option::None
    }
}

/// The name and type of a parameter `name: T`.
pub open spec fn typed_param(a: Node) -> (Seq<char>, TypeV) {
    let cs = sig_list(a.children@);
    let ci = colon_index(cs, 0);
    if ci >= 0 {
        let eq = kind_index(cs, SyntaxKind::Eq, ci + 1);
        let end = if eq >= 0 {
            eq
        } else {
            cs.len() as int
        };
        (
            match dotted_name(cs.take(ci)) {
                Option::Some(n) => n,
                Option::None => Seq::empty(),
            },
            if ci + 1 < end {
                type_of_elem(cs[ci + 1])
            } else {
                unknown_v()
            },
        )
    } else {
        (Seq::empty(), unknown_v())
    }
}

/// The arguments between the parentheses split at commas: a group ends
/// at each comma, and a last group is kept when not empty.
pub open spec fn comma_groups(es: Seq<Element>) -> (Seq<Seq<Element>>, Seq<Element>)
    decreases es.len(),
{
    if es.len() == 0 {
        (Seq::empty(), Seq::empty())
    } else {
        let (gs, cur) = comma_groups(es.drop_last());
        if is_token_kind(es.last(), SyntaxKind::Comma) {
            (gs.push(cur), Seq::empty())
        } else {
            (gs, cur.push(es.last()))
        }
    }
}

/// The groups of the arguments.
pub open spec fn arg_groups(es: Seq<Element>) -> Seq<Seq<Element>> {
    let (gs, cur) = comma_groups(es);
    if cur.len() > 0 {
        gs.push(cur)
    } else {
        gs
    }
}

/// Whether a group is a rest parameter `...name: T`.
pub open spec fn is_rest_group(g: Seq<Element>) -> bool {
    g.len() > 0 && (g[0] matches Element::Node(n) && n.kind == SyntaxKind::SpreadExpr)
}

/// The elements that declare the parameter of a group: after the `...`
/// of a rest parameter.
pub open spec fn group_params(g: Seq<Element>) -> Seq<Element> {
    if is_rest_group(g) {
        match g[0] {
            Element::Node(n) => if sig_list(n.children@).len() > 0 {
                sig_list(n.children@).skip(1)
            } else {
                Seq::empty()
            },
            Element::Token(_) => Seq::empty(),
        }
    } else {
        g
    }
}

/// The parameters and the rest parameter that the groups declare.
pub open spec fn params_of(gs: Seq<Seq<Element>>) -> (Seq<(Seq<char>, TypeV)>, Option<(Seq<char>, TypeV)>)
    decreases gs.len(),
{
    if gs.len() == 0 {
        (Seq::empty(), Option::None)
    } else {
        let (args, rest) = params_of(gs.drop_last());
        let g = gs.last();
        match param_of(group_params(g)) {
            Option::Some(p) => if is_rest_group(g) {
                (args, Option::Some(p))
            } else {
                (args.push(p), rest)
            },
            Option::None => (args, rest),
        }
    }
}

/// `s` after the function that `extern name(args) [-> T]` declares.
pub open spec fn extern_function(s: SchemaV, call: Node, ret: Option<TypeV>, doc: Option<Seq<char>>) -> SchemaV {
    let cs = sig_list(call.children@);
    let lp = kind_index(cs, SyntaxKind::LParen, 0);
    if lp >= 0 {
        match dotted_name(cs.take(lp)) {
            Option::Some(name) => {
                let rp0 = kind_index(cs, SyntaxKind::RParen, 0);
                let rp = if rp0 >= 0 {
                    rp0
                } else {
                    cs.len() as int
                };
                let inner = if rp >= lp + 1 {
                    cs.subrange(lp + 1, rp)
                } else {
                    Seq::empty()
                };
                let (args, rest) = params_of(arg_groups(inner));
                SchemaV {
                    functions: set_entry(
                        s.functions,
                        name,
                        SigV {
                            args,
                            rest,
                            returns: match ret {
                                Option::Some(t) => t,
                                Option::None => TypeV::NoneType,
                            },
                            doc,
                        },
                    ),
                    ..s
                }
            },
            Option::None => s,
        }
    } else {
        s
    }
}

/// `s` after an `extern` declaration: `extern ["code"] [mut] name: T` for
/// a global, `extern ["code"] name(args) [-> T]` for a function.
pub open spec fn extern_decl(s: SchemaV, n: Node, doc: Option<Seq<char>>) -> SchemaV {
    let cs = sig_list(n.children@);
    let i: int = if cs.len() >= 2 && (is_token_kind(cs[1], SyntaxKind::DoubleString)
        || is_token_kind(cs[1], SyntaxKind::SingleString)) {
        2
    } else {
        1
    };
    if cs.len() <= i {
        s
    } else {
        let mutable = is_mut_token(cs[i]);
        let b: int = if mutable {
            i + 1
        } else {
            i
        };
        if cs.len() <= b {
            s
        } else {
            match cs[b] {
                Element::Node(body) => if body.kind == SyntaxKind::AssignExpr {
                    extern_assign(s, body, mutable, doc)
                } else if body.kind == SyntaxKind::CallExpr {
                    let ret = if b + 2 < cs.len() && is_token_kind(cs[b + 1], SyntaxKind::Arrow) {
                        Option::Some(type_of_elem(cs[b + 2]))
                    } else {
                        Option::None
                    };
                    extern_function(s, body, ret, doc)
                } else {
                    s
                },
                Element::Token(_) => s,
            }
        }
    }
}

/// The schema and pending documentation after the top-level elements
/// `es`: line comments collect documentation (a blank line drops it),
/// `type` declarations add aliases, `extern` declarations add globals and
/// functions with the documentation before them.
pub open spec fn schema_fold(es: Seq<Element>) -> (SchemaV, Option<Seq<char>>)
    decreases es.len(),
{
    if es.len() == 0 {
        (empty_schema(), Option::None)
    } else {
        let (s, doc) = schema_fold(es.drop_last());
        match es.last() {
            Element::Token(t) => if t.kind == SyntaxKind::LineComment {
                (
                    s,
                    Option::Some(
                        match doc {
                            Option::Some(d) => d + seq!['\n'] + comment_text(t.text@),
                            Option::None => comment_text(t.text@),
                        },
                    ),
                )
            } else if t.kind == SyntaxKind::Whitespace {
                (
                    s,
                    if doc is Some && t.text@.contains('\n') {
                        Option::None
                    } else {
                        doc
                    },
                )
            } else {
                (s, Option::None)
            },
            Element::Node(n) => if n.kind == SyntaxKind::TypeDecl {
                (
                    match type_decl(n) {
                        Option::Some((name, ty)) => SchemaV {
                            aliases: set_entry(s.aliases, name, ty),
                            ..s
                        },
                        Option::None => s,
                    },
                    Option::None,
                )
            } else if n.kind == SyntaxKind::ExternDecl {
                (extern_decl(s, n, doc), Option::None)
            } else {
                (s, Option::None)
            },
        }
    }
}

/// The schema that the top-level elements `es` of declarations describe.
pub open spec fn schema_of(es: Seq<Element>) -> SchemaV {
    schema_fold(es).0
}

// ── Reading types and names ─────────────────────────────────────────────

/// The elements of `es` picked by `pos`, in order.
pub open spec fn pick(es: Seq<Element>, pos: Seq<usize>) -> Seq<Element> {
    Seq::new(pos.len(), |k: int| es[pos[k] as int])
}

/// The positions in `[from, to)` of the elements of `es` that are not
/// whitespace or comments.
fn sig_positions(es: &Vec<Element>, from: usize, to: usize) -> (r: Vec<usize>)
    requires
        from <= to <= es@.len(),
    ensures
        pick(es@, r@) == sig_list(es@.subrange(from as int, to as int)),
        forall|k: int| 0 <= k < r@.len() ==> from <= #[trigger] r@[k] < to,
{
    let mut out: Vec<usize> = Vec::new();
    let mut i = from;
    proof {
        assert(pick(es@, out@) =~= sig_list(es@.subrange(from as int, from as int)));
    }
    while i < to
        invariant
            from <= i <= to <= es@.len(),
            pick(es@, out@) == sig_list(es@.subrange(from as int, i as int)),
            forall|k: int| 0 <= k < out@.len() ==> from <= #[trigger] out@[k] < i,
        decreases to - i,
    {
        let ghost before = out@;
        proof {
            assert(es@.subrange(from as int, i + 1).drop_last() =~= es@.subrange(from as int, i as int));
            assert(es@.subrange(from as int, i + 1).last() == es@[i as int]);
        }
        let trivia = match &es[i] {
            Element::Token(t) => t.kind.is_trivia(),
            Element::Node(_) => false,
        };
        if !trivia {
            out.push(i);
            proof {
                assert(pick(es@, out@) =~= pick(es@, before).push(es@[i as int]));
            }
        }
        i += 1;
    }
    out
}

/// Whether `e` is a token of kind `a` or `b`.
fn token_in(e: &Element, a: SyntaxKind, b: SyntaxKind) -> (r: bool)
    ensures
        r == (is_token_kind(*e, a) || is_token_kind(*e, b)),
{
    match e {
        Element::Token(t) => t.kind == a || t.kind == b,
        Element::Node(_) => false,
    }
}

/// The type a name denotes.
fn named_type(text: &Vec<char>) -> (r: Type)
    ensures
        r@ == type_name_v(text@),
{
    let w = text.as_slice();
    if word_is(w, &['s', 't', 'r']) {
        Type::Str
    } else if word_is(w, &['i', 'n', 't']) {
        Type::Int
    } else if word_is(w, &['n', 'u', 'm']) {
        Type::Num
    } else if word_is(w, &['b', 'o', 'o', 'l']) {
        Type::Bool
    } else if word_is(w, &['s', 'o', 'm', 'e']) {
        Type::SomeType
    } else if word_is(w, &['u', 'n', 'k', 'n', 'o', 'w', 'n']) {
        Type::unknown()
    } else if word_is(w, &['n', 'e', 'v', 'e', 'r']) {
        Type::Never
    } else {
        Type::Ref(chars_to_string(text))
    }
}

/// The type a token denotes.
fn type_of_tok(t: &Token) -> (r: Type)
    ensures
        r@ == type_of_token(*t),
{
    if t.kind == SyntaxKind::KwNull {
        Type::Null
    } else if t.kind == SyntaxKind::KwNone {
        Type::NoneType
    } else if t.kind == SyntaxKind::Ident {
        named_type(&t.text)
    } else if t.kind == SyntaxKind::DoubleString || t.kind == SyntaxKind::SingleString {
        let n = t.text.len();
        let inner = if n >= 2 {
            crate::lexer::slice_chars(&t.text, 1, n - 1)
        } else {
            Vec::new()
        };
        proof {
            if n < 2 {
                assert(inner@ =~= unquote(t.text@));
            }
        }
        Type::LiteralStr(chars_to_string(&inner))
    } else {
        Type::unknown()
    }
}

/// The type a type expression denotes (see `type_of_elem`).
pub fn type_of(e: &Element) -> (r: Type)
    ensures
        r@ == type_of_elem(*e),
    decreases e, 3nat,
{
    match e {
        Element::Token(t) => type_of_tok(t),
        Element::Node(n) => {
            proof {
                assert(decreases_to!(*e => *n));
                assert(decreases_to!(*n => n.children));
                assert(decreases_to!(n.children => n.children@));
                assert(n.children@.subrange(0, n.children@.len() as int) =~= n.children@);
            }
            let len = n.children.len();
            if n.kind == SyntaxKind::BinaryExpr {
                binary_type_of(&n.children)
            } else if n.kind == SyntaxKind::ArrayExpr {
                let inner = first_type_in(
                    &n.children,
                    0,
                    len,
                    SyntaxKind::LBracket,
                    SyntaxKind::RBracket,
                );
                Type::Array(Box::new(inner))
            } else if n.kind == SyntaxKind::ObjectExpr {
                object_type_of(&n.children)
            } else if n.kind == SyntaxKind::GroupExpr {
                first_type_in(&n.children, 0, len, SyntaxKind::LParen, SyntaxKind::RParen)
            } else {
                Type::unknown()
            }
        },
    }
}

/// The type of the first element of `es` in `[from, to)` that is not
/// skipped.
fn first_type_in(es: &Vec<Element>, from: usize, to: usize, a: SyntaxKind, b: SyntaxKind) -> (r:
    Type)
    requires
        from <= to <= es@.len(),
    ensures
        r@ == first_type(es@.subrange(from as int, to as int), a, b),
    decreases es@.subrange(from as int, to as int), 2nat,
{
    let mut i = from;
    while i < to
        invariant
            from <= i <= to <= es@.len(),
            first_type(es@.subrange(from as int, to as int), a, b) == first_type(
                es@.subrange(i as int, to as int),
                a,
                b,
            ),
        decreases to - i,
    {
        let skip = match &es[i] {
            Element::Token(t) => t.kind.is_trivia() || t.kind == a || t.kind == b,
            Element::Node(_) => false,
        };
        proof {
            assert(es@.subrange(i as int, to as int)[0] == es@[i as int]);
            assert(es@.subrange(i as int, to as int).drop_first() =~= es@.subrange(i + 1, to as int));
        }
        if !skip {
            proof {
                assert(es@.subrange(from as int, to as int)[i - from] == es@[i as int]);
                assert(decreases_to!(es@.subrange(from as int, to as int) => es@[i as int]));
            }
            return type_of(&es[i]);
        }
        i += 1;
    }
    Type::unknown()
}

/// The union or intersection of the two sides of the first `|` or `&`.
fn binary_type_of(es: &Vec<Element>) -> (r: Type)
    ensures
        r@ == binary_type(es@),
    decreases es@, 1nat,
{
    let len = es.len();
    let mut i: usize = 0;
    while i < len && !token_in(&es[i], SyntaxKind::Pipe, SyntaxKind::Amp)
        invariant
            0 <= i <= len == es@.len(),
            op_index(es@, 0) == op_index(es@, i as int),
        decreases len - i,
    {
        i += 1;
    }
    if i >= len {
        return Type::unknown();
    }
    proof {
        assert(es@.subrange(0, i as int) =~= es@.take(i as int));
        assert(es@.subrange(i + 1, len as int) =~= es@.skip(i + 1));
        assert(decreases_to!(es@ => es@.subrange(0, i as int)));
        assert(decreases_to!(es@ => es@.subrange(i + 1, len as int)));
    }
    let l = first_type_in(es, 0, i, SyntaxKind::Whitespace, SyntaxKind::Whitespace);
    let r = first_type_in(es, i + 1, len, SyntaxKind::Whitespace, SyntaxKind::Whitespace);
    let amp = match &es[i] {
        Element::Token(t) => t.kind == SyntaxKind::Amp,
        Element::Node(_) => false,
    };
    let ghost lv = l@;
    let ghost rv = r@;
    proof {
        lemma_flatten_pair(lv, rv);
        assert(op_index(es@, 0) == i);
    }
    let mut parts: Vec<Type> = Vec::new();
    proof {
        assert(views(parts@) =~= Seq::<TypeV>::empty());
    }
    if amp {
        push_flat(&mut parts, l, true);
        push_flat(&mut parts, r, true);
        let res = Type::Intersection(parts);
        proof {
            lemma_view_shapes(res);
            assert(views(parts@) =~= flatten_intersections(seq![lv, rv]));
        }
        res
    } else {
        push_flat(&mut parts, l, false);
        push_flat(&mut parts, r, false);
        let res = Type::Union(parts);
        proof {
            lemma_view_shapes(res);
            assert(views(parts@) =~= flatten_unions(seq![lv, rv]));
        }
        res
    }
}

/// Appends `t`, or its members when it is a union (`inter`: an
/// intersection).
fn push_flat(parts: &mut Vec<Type>, t: Type, inter: bool)
    ensures
        views(final(parts)@) == views(old(parts)@) + (if inter {
            flatten_intersections(seq![t@])
        } else {
            flatten_unions(seq![t@])
        }),
{
    let ghost before = views(parts@);
    let ghost tv = t@;
    proof {
        lemma_view_shapes(t);
        assert(seq![tv].drop_last() =~= Seq::<TypeV>::empty());
        assert(seq![tv].last() == tv);
    }
    match t {
        Type::Union(ts) if !inter => {
            let mut ts = ts;
            let ghost inner = views(ts@);
            proof {
                assert(tv == TypeV::Union(inner));
                assert(flatten_unions(Seq::<TypeV>::empty()) == Seq::<TypeV>::empty());
                assert(flatten_unions(seq![tv]) == flatten_unions(seq![tv].drop_last()) + inner);
                assert(flatten_unions(seq![tv]) =~= inner);
            }
            parts.append(&mut ts);
            proof {
                assert(views(parts@) =~= before + inner);
            }
        },
        Type::Intersection(ts) if inter => {
            let mut ts = ts;
            let ghost inner = views(ts@);
            proof {
                assert(tv == TypeV::Intersection(inner));
                assert(flatten_intersections(Seq::<TypeV>::empty()) == Seq::<TypeV>::empty());
                assert(flatten_intersections(seq![tv]) == flatten_intersections(seq![tv].drop_last())
                    + inner);
                assert(flatten_intersections(seq![tv]) =~= inner);
            }
            parts.append(&mut ts);
            proof {
                assert(views(parts@) =~= before + inner);
            }
        },
        other => {
            parts.push(other);
            proof {
                assert(views(parts@) =~= before.push(tv));
                assert(flatten_unions(Seq::<TypeV>::empty()) == Seq::<TypeV>::empty());
                assert(flatten_intersections(Seq::<TypeV>::empty()) == Seq::<TypeV>::empty());
                if inter {
                    assert(!(tv is Intersection));
                    assert(flatten_intersections(seq![tv]) == flatten_intersections(
                        seq![tv].drop_last(),
                    ).push(tv));
                    assert(flatten_intersections(seq![tv]) =~= seq![tv]);
                } else {
                    assert(!(tv is Union));
                    assert(flatten_unions(seq![tv]) == flatten_unions(seq![tv].drop_last()).push(tv));
                    assert(flatten_unions(seq![tv]) =~= seq![tv]);
                }
            }
        },
    }
}

/// Flattening two types is flattening each, in order.
proof fn lemma_flatten_pair(l: TypeV, r: TypeV)
    ensures
        flatten_unions(seq![l, r]) == flatten_unions(seq![l]) + flatten_unions(seq![r]),
        flatten_intersections(seq![l, r]) == flatten_intersections(seq![l])
            + flatten_intersections(seq![r]),
{
    assert(seq![l, r].drop_last() =~= seq![l]);
    assert(seq![l].drop_last() =~= Seq::<TypeV>::empty());
    assert(seq![r].drop_last() =~= Seq::<TypeV>::empty());
    assert(flatten_unions(Seq::<TypeV>::empty()) =~= Seq::<TypeV>::empty());
    assert(flatten_intersections(Seq::<TypeV>::empty()) =~= Seq::<TypeV>::empty());
    assert(flatten_unions(seq![l, r]) =~= flatten_unions(seq![l]) + flatten_unions(seq![r]));
    assert(flatten_intersections(seq![l, r]) =~= flatten_intersections(seq![l])
        + flatten_intersections(seq![r]));
}

/// An object type from the pairs among `es`.
fn object_type_of(es: &Vec<Element>) -> (r: Type)
    ensures
        r@ == (TypeV::Object { fields: object_fields(es@), wildcard: object_wildcard(es@) }),
    decreases es@, 1nat,
{
    let mut fields: Vec<(String, Type)> = Vec::new();
    let mut wildcard: Option<Box<Type>> = Option::None;
    let mut i: usize = 0;
    proof {
        assert(es@.take(0) =~= Seq::<Element>::empty());
        assert(field_views(fields@) =~= object_fields(es@.take(0)));
    }
    while i < es.len()
        invariant
            0 <= i <= es@.len(),
            field_views(fields@) == object_fields(es@.take(i as int)),
            crate::types::wildcard_view(wildcard) == object_wildcard(es@.take(i as int)),
        decreases es@.len() - i,
    {
        proof {
            assert(es@.take(i + 1).drop_last() =~= es@.take(i as int));
            assert(es@.take(i + 1).last() == es@[i as int]);
        }
        match &es[i] {
            Element::Node(p) => {
                if p.kind == SyntaxKind::Pair {
                    proof {
                        assert(decreases_to!(es@ => es@[i as int]));
                        assert(decreases_to!(es@[i as int] => *p));
                    }
                    match pair_parts(p) {
                        Option::Some((wild, key, val)) => {
                            if wild {
                                wildcard = Option::Some(Box::new(val));
                            } else {
                                let ghost before = fields@;
                                fields.push((key, val));
                                proof {
                                    assert(field_views(fields@) =~= field_views(before).push(
                                        (fields@.last().0@, fields@.last().1@),
                                    ));
                                }
                            }
                        },
                        Option::None => {},
                    }
                }
            },
            Element::Token(_) => {},
        }
        i += 1;
    }
    proof {
        assert(es@.take(es@.len() as int) =~= es@);
    }
    let res = Type::Object { fields, wildcard };
    proof {
        lemma_view_shapes(res);
    }
    res
}

/// A pair of an object type: whether it is the wildcard entry, its key
/// and its value type; nothing without a `:`.
fn pair_parts(p: &Node) -> (r: Option<(bool, String, Type)>)
    ensures
        match r {
            Option::Some((w, k, v)) => colon_index(p.children@, 0) >= 0 && w == is_wildcard_pair(
                p.children@,
            ) && v@ == pair_value(p.children@) && (!w ==> k@ == match dotted_name(
                pair_key(p.children@),
            ) {
                Option::Some(n) => n,
                Option::None => Seq::empty(),
            }),
            Option::None => colon_index(p.children@, 0) < 0,
        },
    decreases *p, 0nat,
{
    let es = &p.children;
    let len = es.len();
    let mut ci: usize = 0;
    while ci < len && !token_in(&es[ci], SyntaxKind::Colon, SyntaxKind::Colon)
        invariant
            0 <= ci <= len == es@.len(),
            colon_index(es@, 0) == colon_index(es@, ci as int),
        decreases len - ci,
    {
        ci += 1;
    }
    if ci >= len {
        return Option::None;
    }
    proof {
        assert(colon_index(es@, 0) == ci);
    }
    let keys = sig_positions(es, 0, ci);
    proof {
        assert(es@.subrange(0, ci as int) =~= es@.take(ci as int));
    }
    let skip_mut = keys.len() >= 2 && match &es[keys[0]] {
        Element::Token(t) => word_is(t.text.as_slice(), &['m', 'u', 't']),
        Element::Node(_) => false,
    };
    let a: usize = if skip_mut {
        1
    } else {
        0
    };
    proof {
        if skip_mut {
            assert(pick(es@, keys@).drop_first() =~= pick(es@, keys@).skip(1));
        } else {
            assert(pick(es@, keys@).skip(0) =~= pick(es@, keys@));
        }
        assert(pair_key(es@) == pick(es@, keys@).skip(a as int));
    }
    let wild = keys.len() == a + 1 && match &es[keys[a]] {
        Element::Token(t) => t.kind == SyntaxKind::Star,
        Element::Node(_) => false,
    };
    proof {
        assert(es@.subrange(ci + 1, len as int) =~= es@.skip(ci + 1));
        assert(decreases_to!(*p => p.children));
        assert(decreases_to!(p.children => p.children@));
        assert(decreases_to!(p.children@ => p.children@.subrange(ci + 1, len as int)));
    }
    let val = first_type_in(es, ci + 1, len, SyntaxKind::Whitespace, SyntaxKind::Whitespace);
    if wild {
        return Option::Some((true, String::new(), val));
    }
    proof {
        assert(pick(es@, keys@).skip(a as int) =~= pick(es@, keys@).subrange(a as int, keys@.len() as int));
    }
    let key = match dotted_name_of(es, &keys, a, keys.len()) {
        Option::Some(k) => chars_to_string(&k),
        Option::None => String::new(),
    };
    Option::Some((false, key, val))
}

/// The dotted name that the elements picked by `pos`, from the `a`-th up
/// to the `b`-th, spell (see `dotted_name`).
fn dotted_name_of(es: &Vec<Element>, pos: &Vec<usize>, a: usize, b: usize) -> (r: Option<
    Vec<char>,
>)
    requires
        a <= b <= pos@.len(),
        forall|k: int| 0 <= k < pos@.len() ==> #[trigger] pos@[k] < es@.len(),
    ensures
        match r {
            Option::Some(v) => dotted_name(pick(es@, pos@).subrange(a as int, b as int))
                == Option::Some(v@),
            Option::None => dotted_name(pick(es@, pos@).subrange(a as int, b as int)) is None,
        },
{
    let ghost parts = pick(es@, pos@).subrange(a as int, b as int);
    let n = b - a;
    if n == 0 {
        return Option::None;
    }
    if n == 1 {
        proof {
            assert(parts[0] == es@[pos@[a as int] as int]);
        }
        return match &es[pos[a]] {
            Element::Token(t) => if t.kind == SyntaxKind::Ident {
                Option::Some(t.text.clone())
            } else {
                Option::None
            },
            Element::Node(m) => if m.kind == SyntaxKind::NavExpr {
                Option::Some(nav_name_of(m))
            } else if m.kind == SyntaxKind::CallExpr {
                call_name_of(&m.children)
            } else {
                Option::None
            },
        };
    }
    let mut texts: Vec<Vec<char>> = Vec::new();
    let mut k = a;
    proof {
        assert(parts.take(0) =~= Seq::<Element>::empty());
        assert(Seq::new(texts@.len(), |j: int| texts@[j]@) =~= name_texts(parts.take(0)));
    }
    while k < b
        invariant
            a <= k <= b <= pos@.len(),
            parts == pick(es@, pos@).subrange(a as int, b as int),
            forall|j: int| 0 <= j < pos@.len() ==> #[trigger] pos@[j] < es@.len(),
            Seq::new(texts@.len(), |j: int| texts@[j]@) == name_texts(parts.take(k - a)),
        decreases pos@.len() - k,
    {
        let ghost before = Seq::new(texts@.len(), |j: int| texts@[j]@);
        proof {
            assert(parts.take(k - a + 1).drop_last() =~= parts.take(k - a));
            assert(parts.take(k - a + 1).last() == es@[pos@[k as int] as int]);
        }
        match &es[pos[k]] {
            Element::Token(t) => {
                if t.text.len() > 0 && !(t.text.len() == 1 && t.text[0] == '.') {
                    texts.push(t.text.clone());
                    proof {
                        if t.text@ == seq!['.'] {
                            assert(t.text@[0] == '.');
                        }
                        assert(Seq::new(texts@.len(), |j: int| texts@[j]@) =~= before.push(t.text@));
                    }
                } else {
                    proof {
                        if t.text@.len() == 1 && t.text@[0] == '.' {
                            assert(t.text@ =~= seq!['.']);
                        }
                    }
                }
            },
            Element::Node(_) => {},
        }
        k += 1;
    }
    proof {
        assert(parts.take(k - a) =~= parts);
    }
    if texts.len() == 0 {
        return Option::None;
    }
    Option::Some(join_dots(&texts))
}

/// `parts` joined with dots.
fn join_dots(parts: &Vec<Vec<char>>) -> (r: Vec<char>)
    ensures
        r@ == join_v(Seq::new(parts@.len(), |j: int| parts@[j]@), seq!['.']),
{
    let ghost pv = Seq::new(parts@.len(), |j: int| parts@[j]@);
    let mut out: Vec<char> = Vec::new();
    let mut i: usize = 0;
    proof {
        assert(pv.take(0) =~= Seq::<Seq<char>>::empty());
    }
    while i < parts.len()
        invariant
            0 <= i <= parts@.len(),
            pv == Seq::new(parts@.len(), |j: int| parts@[j]@),
            out@ == join_v(pv.take(i as int), seq!['.']),
        decreases parts@.len() - i,
    {
        let ghost prev = out@;
        if i > 0 {
            out.push('.');
        }
        let mut j: usize = 0;
        let ghost mid = out@;
        while j < parts[i].len()
            invariant
                0 <= j <= parts@[i as int]@.len(),
                i < parts@.len(),
                out@ == mid + parts@[i as int]@.take(j as int),
            decreases parts@[i as int]@.len() - j,
        {
            out.push(parts[i][j]);
            proof {
                assert(parts@[i as int]@.take(j + 1) =~= parts@[i as int]@.take(j as int).push(
                    parts@[i as int]@[j as int],
                ));
            }
            j += 1;
        }
        proof {
            assert(parts@[i as int]@.take(j as int) =~= parts@[i as int]@);
            assert(pv.take(i + 1) =~= pv.take(i as int).push(pv[i as int]));
            lemma_join_push(pv.take(i as int), seq!['.'], pv[i as int]);
            if i > 0 {
                assert(out@ =~= prev + seq!['.'] + pv[i as int]);
            } else {
                assert(out@ =~= pv[i as int]);
            }
        }
        i += 1;
    }
    proof {
        assert(pv.take(parts@.len() as int) =~= pv);
    }
    out
}

/// The dotted name of a navigation.
fn nav_name_of(n: &Node) -> (r: Vec<char>)
    ensures
        r@ == nav_name(*n),
    decreases *n,
{
    let es = &n.children;
    let mut parts: Vec<Vec<char>> = Vec::new();
    let mut i: usize = 0;
    proof {
        assert(es@.take(0) =~= Seq::<Element>::empty());
        assert(Seq::new(parts@.len(), |j: int| parts@[j]@) =~= nav_parts(es@.take(0)));
    }
    while i < es.len()
        invariant
            0 <= i <= es@.len(),
            es == &n.children,
            Seq::new(parts@.len(), |j: int| parts@[j]@) == nav_parts(es@.take(i as int)),
        decreases es@.len() - i,
    {
        let ghost before = Seq::new(parts@.len(), |j: int| parts@[j]@);
        proof {
            assert(es@.take(i + 1).drop_last() =~= es@.take(i as int));
            assert(es@.take(i + 1).last() == es@[i as int]);
        }
        match &es[i] {
            Element::Token(t) => {
                if t.kind == SyntaxKind::Ident || t.kind == SyntaxKind::DecimalNumber
                    || t.kind.is_keyword() {
                    parts.push(t.text.clone());
                    proof {
                        assert(Seq::new(parts@.len(), |j: int| parts@[j]@) =~= before.push(t.text@));
                    }
                }
            },
            Element::Node(m) => {
                if m.kind == SyntaxKind::NavExpr {
                    proof {
                        assert(decreases_to!(*n => n.children));
                        assert(decreases_to!(n.children => n.children@));
                        assert(decreases_to!(n.children@ => n.children@[i as int]));
                        assert(decreases_to!(n.children@[i as int] => *m));
                    }
                    let sub = nav_name_of(m);
                    parts.push(sub);
                    proof {
                        assert(Seq::new(parts@.len(), |j: int| parts@[j]@) =~= before.push(nav_name(*m)));
                    }
                }
            },
        }
        i += 1;
    }
    proof {
        assert(es@.take(es@.len() as int) =~= es@);
    }
    join_dots(&parts)
}

/// The name a call calls (see `call_name_from`).
fn call_name_of(es: &Vec<Element>) -> (r: Option<Vec<char>>)
    ensures
        match r {
            Option::Some(v) => call_name_from(es@) == Option::Some(v@),
            Option::None => call_name_from(es@) is None,
        },
{
    let mut i: usize = 0;
    proof {
        assert(es@.skip(0) =~= es@);
    }
    while i < es.len()
        invariant
            0 <= i <= es@.len(),
            call_name_from(es@) == call_name_from(es@.skip(i as int)),
        decreases es@.len() - i,
    {
        proof {
            assert(es@.skip(i as int)[0] == es@[i as int]);
            assert(es@.skip(i as int).drop_first() =~= es@.skip(i + 1));
        }
        match &es[i] {
            Element::Token(t) => {
                if t.kind == SyntaxKind::LParen {
                    return Option::None;
                } else if t.kind == SyntaxKind::Ident {
                    return Option::Some(t.text.clone());
                }
            },
            Element::Node(m) => {
                if m.kind == SyntaxKind::NavExpr {
                    return Option::Some(nav_name_of(m));
                }
            },
        }
        i += 1;
    }
    proof {
        assert(es@.skip(i as int) =~= Seq::<Element>::empty());
    }
    Option::None
}

// ── Reading declarations ────────────────────────────────────────────────

/// Index of the first entry named `k` from `i` on, or -1.
pub open spec fn key_pos<V>(m: Seq<(String, V)>, k: Seq<char>, i: int) -> int
    decreases m.len() - i,
{
    if i < 0 || i >= m.len() {
        -1
    } else if m[i].0@ == k {
        i
    } else {
        key_pos(m, k, i + 1)
    }
}

/// Entries and their models are found at the same index.
proof fn lemma_key_pos<V, W>(m: Seq<(String, V)>, mv: Seq<(Seq<char>, W)>, k: Seq<char>, i: int)
    requires
        m.len() == mv.len(),
        forall|j: int| 0 <= j < m.len() ==> mv[j].0 == (#[trigger] m[j]).0@,
        0 <= i,
    ensures
        key_pos(m, k, i) == name_index_from(mv, k, i),
        -1 <= key_pos(m, k, i) < m.len(),
    decreases m.len() - i,
{
    if i < m.len() {
        lemma_key_pos(m, mv, k, i + 1);
    }
}

/// Sets the entry named `k` to `v`: in place when there is one, else at
/// the end.
fn set_key<V>(m: &mut Vec<(String, V)>, k: String, v: V)
    ensures
        0 <= key_pos(old(m)@, k@, 0) ==> final(m)@ == old(m)@.update(
            key_pos(old(m)@, k@, 0),
            (k, v),
        ),
        key_pos(old(m)@, k@, 0) < 0 ==> final(m)@ == old(m)@.push((k, v)),
{
    let mut i: usize = 0;
    while i < m.len()
        invariant
            0 <= i <= m@.len(),
            m@ == old(m)@,
            key_pos(m@, k@, 0) == key_pos(m@, k@, i as int),
        decreases m@.len() - i,
    {
        if str_eq(m[i].0.as_str(), k.as_str()) {
            m.set(i, (k, v));
            return;
        }
        i += 1;
    }
    m.push((k, v));
}

/// The documentation text of a line comment.
fn comment_doc(text: &Vec<char>) -> (r: Vec<char>)
    ensures
        r@ == comment_text(text@),
{
    let mut i: usize = 0;
    proof {
        assert(text@.skip(0) =~= text@);
    }
    while text.len() - i >= 2 && text[i] == '/' && text[i + 1] == '/'
        invariant
            0 <= i <= text@.len(),
            strip_slashes(text@) == strip_slashes(text@.skip(i as int)),
        decreases text@.len() - i,
    {
        proof {
            assert(text@.skip(i as int).skip(2) =~= text@.skip(i + 2));
        }
        i += 2;
    }
    let rest = crate::lexer::slice_chars(text, i, text.len());
    proof {
        assert(rest@ =~= text@.skip(i as int));
    }
    trim_chars(&rest)
}

/// The alias that a `type Name = T` declaration declares.
fn type_decl_of(n: &Node) -> (r: Option<(String, Type)>)
    ensures
        match r {
            Option::Some((name, ty)) => type_decl(*n) == Option::Some((name@, ty@)),
            Option::None => type_decl(*n) is None,
        },
{
    let es = &n.children;
    let pos = sig_positions(es, 0, es.len());
    proof {
        assert(es@.subrange(0, es@.len() as int) =~= es@);
    }
    if pos.len() < 4 {
        return Option::None;
    }
    let kw = token_in(&es[pos[0]], SyntaxKind::KwType, SyntaxKind::KwType);
    let eq = token_in(&es[pos[2]], SyntaxKind::Eq, SyntaxKind::Eq);
    if !kw || !eq {
        return Option::None;
    }
    match &es[pos[1]] {
        Element::Token(t) => {
            if t.text.len() == 0 {
                return Option::None;
            }
            let ty = type_of(&es[pos[3]]);
            Option::Some((chars_to_string(&t.text), ty))
        },
        Element::Node(_) => Option::None,
    }
}

/// The index in `pos` (from `from` on) of the first element that is a
/// token of kind `a` or `b`, or the length of `pos`.
fn find_token(es: &Vec<Element>, pos: &Vec<usize>, a: SyntaxKind, b: SyntaxKind, from: usize) -> (r:
    usize)
    requires
        from <= pos@.len(),
        forall|k: int| 0 <= k < pos@.len() ==> #[trigger] pos@[k] < es@.len(),
    ensures
        from <= r <= pos@.len(),
        r < pos@.len() ==> token_index(pick(es@, pos@), a, b, from as int) == r,
        r == pos@.len() ==> token_index(pick(es@, pos@), a, b, from as int) == -1,
{
    let mut i = from;
    while i < pos.len() && !token_in(&es[pos[i]], a, b)
        invariant
            from <= i <= pos@.len(),
            forall|k: int| 0 <= k < pos@.len() ==> #[trigger] pos@[k] < es@.len(),
            token_index(pick(es@, pos@), a, b, from as int) == token_index(
                pick(es@, pos@),
                a,
                b,
                i as int,
            ),
        decreases pos@.len() - i,
    {
        i += 1;
    }
    i
}

/// The writable fields written in an object type with these children.
fn object_mut_fields_of(es: &Vec<Element>) -> (r: Vec<String>)
    ensures
        Seq::new(r@.len(), |i: int| r@[i]@) == object_mut_fields(es@),
{
    let mut out: Vec<String> = Vec::new();
    let mut i: usize = 0;
    proof {
        assert(es@.take(0) =~= Seq::<Element>::empty());
        assert(Seq::new(out@.len(), |j: int| out@[j]@) =~= object_mut_fields(es@.take(0)));
    }
    while i < es.len()
        invariant
            0 <= i <= es@.len(),
            Seq::new(out@.len(), |j: int| out@[j]@) == object_mut_fields(es@.take(i as int)),
        decreases es@.len() - i,
    {
        let ghost before = Seq::new(out@.len(), |j: int| out@[j]@);
        proof {
            assert(es@.take(i + 1).drop_last() =~= es@.take(i as int));
            assert(es@.take(i + 1).last() == es@[i as int]);
        }
        match &es[i] {
            Element::Node(p) => {
                if p.kind == SyntaxKind::Pair {
                    let ps = sig_positions(&p.children, 0, p.children.len());
                    proof {
                        assert(p.children@.subrange(0, p.children@.len() as int) =~= p.children@);
                    }
                    if ps.len() >= 3 {
                        let is_mut = match &p.children[ps[0]] {
                            Element::Token(t) => word_is(t.text.as_slice(), &['m', 'u', 't']),
                            Element::Node(_) => false,
                        };
                        if is_mut {
                            match &p.children[ps[1]] {
                                Element::Token(t) => {
                                    if t.kind == SyntaxKind::Star {
                                        let mut star = String::new();
                                        push_char(&mut star, '*');
                                        out.push(star);
                                        proof {
                                            assert(Seq::new(out@.len(), |j: int| out@[j]@) =~= before.push(seq!['*']));
                                        }
                                    } else if t.text.len() > 0 {
                                        out.push(chars_to_string(&t.text));
                                        proof {
                                            assert(Seq::new(out@.len(), |j: int| out@[j]@) =~= before.push(t.text@));
                                        }
                                    }
                                },
                                Element::Node(_) => {},
                            }
                        }
                    }
                }
            },
            Element::Token(_) => {},
        }
        i += 1;
    }
    proof {
        assert(es@.take(es@.len() as int) =~= es@);
    }
    out
}

/// The writable fields of the object types picked by `pos` from `a` on.
fn mut_fields_of(es: &Vec<Element>, pos: &Vec<usize>, a: usize) -> (r: Vec<String>)
    requires
        a <= pos@.len(),
        forall|k: int| 0 <= k < pos@.len() ==> #[trigger] pos@[k] < es@.len(),
    ensures
        Seq::new(r@.len(), |i: int| r@[i]@) == mut_fields(pick(es@, pos@).skip(a as int)),
{
    let ghost parts = pick(es@, pos@).skip(a as int);
    let mut out: Vec<String> = Vec::new();
    let mut k = a;
    proof {
        assert(parts.take(0) =~= Seq::<Element>::empty());
        assert(Seq::new(out@.len(), |j: int| out@[j]@) =~= mut_fields(parts.take(0)));
    }
    while k < pos.len()
        invariant
            a <= k <= pos@.len(),
            parts == pick(es@, pos@).skip(a as int),
            forall|j: int| 0 <= j < pos@.len() ==> #[trigger] pos@[j] < es@.len(),
            Seq::new(out@.len(), |j: int| out@[j]@) == mut_fields(parts.take(k - a)),
        decreases pos@.len() - k,
    {
        let ghost before = Seq::new(out@.len(), |j: int| out@[j]@);
        proof {
            assert(parts.take(k - a + 1).drop_last() =~= parts.take(k - a));
            assert(parts.take(k - a + 1).last() == es@[pos@[k as int] as int]);
        }
        match &es[pos[k]] {
            Element::Node(n) => {
                if n.kind == SyntaxKind::ObjectExpr {
                    let mut more = object_mut_fields_of(&n.children);
                    let ghost mv = Seq::new(more@.len(), |j: int| more@[j]@);
                    out.append(&mut more);
                    proof {
                        assert(Seq::new(out@.len(), |j: int| out@[j]@) =~= before + mv);
                    }
                }
            },
            Element::Token(_) => {},
        }
        k += 1;
    }
    proof {
        assert(parts.take(k - a) =~= parts);
    }
    out
}

/// The name and type of a parameter `name: T`.
fn typed_param_of(a: &Node) -> (r: (String, Type))
    ensures
        (r.0@, r.1@) == typed_param(*a),
{
    let es = &a.children;
    let pos = sig_positions(es, 0, es.len());
    proof {
        assert(es@.subrange(0, es@.len() as int) =~= es@);
    }
    let ci = find_token(es, &pos, SyntaxKind::Colon, SyntaxKind::Colon, 0);
    if ci >= pos.len() {
        return (String::new(), Type::unknown());
    }
    let name = match dotted_name_of(es, &pos, 0, ci) {
        Option::Some(v) => chars_to_string(&v),
        Option::None => String::new(),
    };
    proof {
        assert(pick(es@, pos@).subrange(0, ci as int) =~= pick(es@, pos@).take(ci as int));
    }
    let eq = find_token(es, &pos, SyntaxKind::Eq, SyntaxKind::Eq, ci + 1);
    let ty = if ci + 1 < eq {
        type_of(&es[pos[ci + 1]])
    } else {
        Type::unknown()
    };
    (name, ty)
}

/// The parameter of the group picked by `pos` in `[from, to)`, and
/// whether the group is a rest parameter.
fn group_param(es: &Vec<Element>, pos: &Vec<usize>, from: usize, to: usize) -> (r: (
    bool,
    Option<(String, Type)>,
))
    requires
        from <= to <= pos@.len(),
        forall|k: int| 0 <= k < pos@.len() ==> #[trigger] pos@[k] < es@.len(),
    ensures
        ({
            let g = pick(es@, pos@).subrange(from as int, to as int);
            &&& r.0 == is_rest_group(g)
            &&& match r.1 {
                Option::Some((n, t)) => param_of(group_params(g)) == Option::Some((n@, t@)),
                Option::None => param_of(group_params(g)) is None,
            }
        }),
{
    let ghost g = pick(es@, pos@).subrange(from as int, to as int);
    if from >= to {
        return (false, Option::None);
    }
    proof {
        assert(g[0] == es@[pos@[from as int] as int]);
    }
    match &es[pos[from]] {
        Element::Node(n) => {
            if n.kind == SyntaxKind::SpreadExpr {
                let ps = sig_positions(&n.children, 0, n.children.len());
                proof {
                    assert(n.children@.subrange(0, n.children@.len() as int) =~= n.children@);
                    if ps@.len() > 0 {
                        assert(group_params(g) == pick(n.children@, ps@).skip(1));
                    }
                }
                if ps.len() > 1 {
                    proof {
                        assert(pick(n.children@, ps@).skip(1)[0] == n.children@[ps@[1] as int]);
                    }
                    match &n.children[ps[1]] {
                        Element::Node(m) => {
                            if m.kind == SyntaxKind::AssignExpr {
                                let (name, ty) = typed_param_of(m);
                                return (true, Option::Some((name, ty)));
                            }
                        },
                        Element::Token(_) => {},
                    }
                }
                proof {
                    if ps@.len() == 1 {
                        assert(pick(n.children@, ps@).skip(1).len() == 0);
                    }
                    assert(is_rest_group(g));
                    assert(param_of(group_params(g)) is None);
                }
                (true, Option::None)
            } else if n.kind == SyntaxKind::AssignExpr {
                let (name, ty) = typed_param_of(n);
                proof {
                    assert(!is_rest_group(g));
                    assert(group_params(g) == g);
                }
                (false, Option::Some((name, ty)))
            } else {
                proof {
                    assert(!is_rest_group(g));
                    assert(group_params(g) == g);
                }
                (false, Option::None)
            }
        },
        Element::Token(_) => {
            proof {
                assert(!is_rest_group(g));
                assert(group_params(g) == g);
            }
            (false, Option::None)
        },
    }
}

/// Adds the global that `extern [mut] name: T` declares.
fn add_extern_assign(s: &mut DomainSchema, a: &Node, mutable: bool, doc: Option<String>)
    ensures
        schema_v(*final(s)) == extern_assign(schema_v(*old(s)), *a, mutable, opt_chars(doc)),
{
    let es = &a.children;
    let pos = sig_positions(es, 0, es.len());
    proof {
        assert(es@.subrange(0, es@.len() as int) =~= es@);
    }
    let sep = find_token(es, &pos, SyntaxKind::Eq, SyntaxKind::Colon, 0);
    if sep == 0 || sep >= pos.len() || sep + 1 >= pos.len() {
        return;
    }
    proof {
        assert(pick(es@, pos@).subrange(0, sep as int) =~= pick(es@, pos@).take(sep as int));
    }
    let name = match dotted_name_of(es, &pos, 0, sep) {
        Option::Some(v) => chars_to_string(&v),
        Option::None => {
            return;
        },
    };
    let ty = type_of(&es[pos[sep + 1]]);
    let mf = mut_fields_of(es, &pos, sep + 1);
    let entry = GlobalEntry { ty, mutable, mutable_fields: mf, doc };
    let ghost gv = global_v(entry);
    let ghost old_s = schema_v(*s);
    let ghost old_g = s.globals@;
    proof {
        assert(gv.mutable_fields =~= mut_fields(pick(es@, pos@).skip(sep + 1)));
        lemma_key_pos(old_g, old_s.globals, name@, 0);
    }
    set_key(&mut s.globals, name, entry);
    proof {
        assert(schema_v(*s).globals =~= set_entry(old_s.globals, name@, gv));
        assert(schema_v(*s).aliases =~= old_s.aliases);
        assert(schema_v(*s).functions =~= old_s.functions);
    }
}

/// Adds the function that `extern name(args) [-> T]` declares.
fn add_extern_function(s: &mut DomainSchema, call: &Node, ret: Option<Type>, doc: Option<String>)
    ensures
        schema_v(*final(s)) == extern_function(
            schema_v(*old(s)),
            *call,
            match ret {
                Option::Some(t) => Option::Some(t@),
                Option::None => Option::None,
            },
            opt_chars(doc),
        ),
{
    let es = &call.children;
    let pos = sig_positions(es, 0, es.len());
    let ghost cs = pick(es@, pos@);
    proof {
        assert(es@.subrange(0, es@.len() as int) =~= es@);
    }
    let lp = find_token(es, &pos, SyntaxKind::LParen, SyntaxKind::LParen, 0);
    if lp >= pos.len() {
        return;
    }
    proof {
        assert(cs.subrange(0, lp as int) =~= cs.take(lp as int));
    }
    let name = match dotted_name_of(es, &pos, 0, lp) {
        Option::Some(v) => chars_to_string(&v),
        Option::None => {
            return;
        },
    };
    let rp = find_token(es, &pos, SyntaxKind::RParen, SyntaxKind::RParen, 0);
    let lo = lp + 1;
    let hi = if rp >= lo {
        rp
    } else {
        lo
    };
    let ghost inner = cs.subrange(lo as int, hi as int);
    proof {
        if rp < lo {
            assert(inner =~= Seq::<Element>::empty());
        }
    }
    let mut args: Vec<(String, Type)> = Vec::new();
    let mut rest: Option<(String, Type)> = Option::None;
    let mut start = lo;
    let mut j = lo;
    proof {
        assert(inner.take(0) =~= Seq::<Element>::empty());
        assert(cs.subrange(lo as int, lo as int) =~= Seq::<Element>::empty());
    }
    while j < hi
        invariant
            lo <= start <= j <= hi <= pos@.len(),
            cs == pick(es@, pos@),
            inner == cs.subrange(lo as int, hi as int),
            forall|k: int| 0 <= k < pos@.len() ==> #[trigger] pos@[k] < es@.len(),
            comma_groups(inner.take(j - lo)).1 == cs.subrange(start as int, j as int),
            params_of(comma_groups(inner.take(j - lo)).0) == (field_views(args@), match rest {
                Option::Some((n, t)) => Option::Some((n@, t@)),
                Option::None => Option::None,
            }),
        decreases hi - j,
    {
        proof {
            assert(inner.take(j - lo + 1).drop_last() =~= inner.take(j - lo));
            assert(inner.take(j - lo + 1).last() == cs[j as int]);
        }
        if token_in(&es[pos[j]], SyntaxKind::Comma, SyntaxKind::Comma) {
            let (is_rest, param) = group_param(es, &pos, start, j);
            let ghost before = field_views(args@);
            match param {
                Option::Some(p) => {
                    if is_rest {
                        rest = Option::Some(p);
                    } else {
                        args.push(p);
                        proof {
                            assert(field_views(args@) =~= before.push((args@.last().0@, args@.last().1@)));
                        }
                    }
                },
                Option::None => {},
            }
            proof {
                let gs = comma_groups(inner.take(j - lo)).0;
                let cur = cs.subrange(start as int, j as int);
                assert(gs.push(cur).drop_last() =~= gs);
                assert(gs.push(cur).last() == cur);
                assert(comma_groups(inner.take(j - lo + 1)) == (gs.push(cur), Seq::<Element>::empty()));
            }
            start = j + 1;
            proof {
                assert(cs.subrange(start as int, j + 1) =~= Seq::<Element>::empty());
            }
        } else {
            proof {
                assert(cs.subrange(start as int, j + 1) =~= cs.subrange(start as int, j as int).push(cs[j as int]));
            }
        }
        j += 1;
    }
    proof {
        assert(inner.take(hi - lo) =~= inner);
    }
    if start < hi {
        let (is_rest, param) = group_param(es, &pos, start, hi);
        let ghost before = field_views(args@);
        match param {
            Option::Some(p) => {
                if is_rest {
                    rest = Option::Some(p);
                } else {
                    args.push(p);
                    proof {
                        assert(field_views(args@) =~= before.push((args@.last().0@, args@.last().1@)));
                    }
                }
            },
            Option::None => {},
        }
        proof {
            let gs = comma_groups(inner).0;
            assert(gs.push(cs.subrange(start as int, hi as int)).drop_last() =~= gs);
        }
    }
    let ret_ty = match ret {
        Option::Some(t) => t,
        Option::None => Type::NoneType,
    };
    let sig = FunctionSig { args, rest, returns: ret_ty, doc };
    let ghost fv = sig_v(sig);
    let ghost old_s = schema_v(*s);
    let ghost old_f = s.functions@;
    proof {
        lemma_key_pos(old_f, old_s.functions, name@, 0);
    }
    set_key(&mut s.functions, name, sig);
    proof {
        assert(schema_v(*s).functions =~= set_entry(old_s.functions, name@, fv));
        assert(schema_v(*s).aliases =~= old_s.aliases);
        assert(schema_v(*s).globals =~= old_s.globals);
    }
}

/// Adds what an `extern` declaration declares.
fn add_extern_decl(s: &mut DomainSchema, n: &Node, doc: Option<String>)
    ensures
        schema_v(*final(s)) == extern_decl(schema_v(*old(s)), *n, opt_chars(doc)),
{
    let es = &n.children;
    let pos = sig_positions(es, 0, es.len());
    proof {
        assert(es@.subrange(0, es@.len() as int) =~= es@);
    }
    let i: usize = if pos.len() >= 2 && token_in(
        &es[pos[1]],
        SyntaxKind::DoubleString,
        SyntaxKind::SingleString,
    ) {
        2
    } else {
        1
    };
    if pos.len() <= i {
        return;
    }
    let mutable = match &es[pos[i]] {
        Element::Token(t) => word_is(t.text.as_slice(), &['m', 'u', 't']),
        Element::Node(_) => false,
    };
    let b = if mutable {
        i + 1
    } else {
        i
    };
    if pos.len() <= b {
        return;
    }
    match &es[pos[b]] {
        Element::Node(body) => {
            if body.kind == SyntaxKind::AssignExpr {
                add_extern_assign(s, body, mutable, doc);
            } else if body.kind == SyntaxKind::CallExpr {
                let ret = if b + 2 < pos.len() && token_in(
                    &es[pos[b + 1]],
                    SyntaxKind::Arrow,
                    SyntaxKind::Arrow,
                ) {
                    Option::Some(type_of(&es[pos[b + 2]]))
                } else {
                    Option::None
                };
                add_extern_function(s, body, ret, doc);
            }
        },
        Element::Token(_) => {},
    }
}

/// The schema that the top-level elements of declarations describe (see
/// `schema_of`).
pub fn extract_schema(root: &Node) -> (r: DomainSchema)
    ensures
        schema_v(r) == schema_of(root.children@),
{
    let es = &root.children;
    let mut schema = DomainSchema {
        type_aliases: Vec::new(),
        globals: Vec::new(),
        functions: Vec::new(),
    };
    let mut doc: Option<Vec<char>> = Option::None;
    let mut i: usize = 0;
    proof {
        assert(es@.take(0) =~= Seq::<Element>::empty());
        assert(schema_v(schema).aliases =~= Seq::<(Seq<char>, TypeV)>::empty());
        assert(schema_v(schema).globals =~= Seq::<(Seq<char>, GlobalV)>::empty());
        assert(schema_v(schema).functions =~= Seq::<(Seq<char>, SigV)>::empty());
    }
    while i < es.len()
        invariant
            0 <= i <= es@.len(),
            es == &root.children,
            schema_fold(es@.take(i as int)) == (schema_v(schema), match doc {
                Option::Some(d) => Option::Some(d@),
                Option::None => Option::None,
            }),
        decreases es@.len() - i,
    {
        proof {
            assert(es@.take(i + 1).drop_last() =~= es@.take(i as int));
            assert(es@.take(i + 1).last() == es@[i as int]);
        }
        match &es[i] {
            Element::Token(t) => {
                if t.kind == SyntaxKind::LineComment {
                    let text = comment_doc(&t.text);
                    let next = match doc {
                        Option::Some(d) => {
                            let mut d = d;
                            let ghost dv = d@;
                            d.push('\n');
                            let mut tc = text;
                            d.append(&mut tc);
                            proof {
                                assert(d@ =~= dv + seq!['\n'] + comment_text(t.text@));
                            }
                            d
                        },
                        Option::None => text,
                    };
                    doc = Option::Some(next);
                } else if t.kind == SyntaxKind::Whitespace {
                    if doc.is_some() && has_newline(&t.text) {
                        doc = Option::None;
                    }
                } else {
                    doc = Option::None;
                }
            },
            Element::Node(n) => {
                if n.kind == SyntaxKind::TypeDecl {
                    match type_decl_of(n) {
                        Option::Some((name, ty)) => {
                            let ghost old_s = schema_v(schema);
                            let ghost tv = ty@;
                            proof {
                                lemma_key_pos(schema.type_aliases@, old_s.aliases, name@, 0);
                            }
                            set_key(&mut schema.type_aliases, name, ty);
                            proof {
                                assert(schema_v(schema).aliases =~= set_entry(old_s.aliases, name@, tv));
                                assert(schema_v(schema).globals =~= old_s.globals);
                                assert(schema_v(schema).functions =~= old_s.functions);
                            }
                        },
                        Option::None => {},
                    }
                    doc = Option::None;
                } else if n.kind == SyntaxKind::ExternDecl {
                    let d = match doc {
                        Option::Some(v) => Option::Some(chars_to_string(&v)),
                        Option::None => Option::None,
                    };
                    add_extern_decl(&mut schema, n, d);
                    doc = Option::None;
                } else {
                    doc = Option::None;
                }
            },
        }
        i += 1;
    }
    proof {
        assert(es@.take(es@.len() as int) =~= es@);
    }
    schema
}

/// Whether `cs` holds a line break.
fn has_newline(cs: &Vec<char>) -> (r: bool)
    ensures
        r == cs@.contains('\n'),
{
    let mut i: usize = 0;
    while i < cs.len()
        invariant
            0 <= i <= cs@.len(),
            forall|j: int| 0 <= j < i ==> cs@[j] != '\n',
        decreases cs@.len() - i,
    {
        if cs[i] == '\n' {
            proof {
                assert(cs@[i as int] == '\n');
            }
            return true;
        }
        i += 1;
    }
    false
}

/// Reads the schema that declarations (`.rexd` source) describe: the
/// aliases, globals and functions that the tree of the source declares
/// (see `schema_of`).
pub fn parse_rexd(source: &str) -> (r: DomainSchema)
    requires
        source@.len() + 4 <= usize::MAX,
    ensures
        exists|root: Node|
            crate::parser::is_parse_of(root, source@) && schema_v(r) == schema_of(root.children@),
{
    let root = crate::parser::parse(source);
    extract_schema(&root)
}

// ── Shortcodes ──────────────────────────────────────────────────────────

/// What a declaration's shortcode replaces: a global binding (`Ref`) or a
/// function call (`Opcode`).
#[derive(Debug, PartialEq, Eq)]
pub enum Shortcode {
    Ref(String),
    Opcode(String),
}

/// The model of a shortcode.
pub enum ShortcodeV {
    Ref(Seq<char>),
    Opcode(Seq<char>),
}

impl View for Shortcode {
    type V = ShortcodeV;

    open spec fn view(&self) -> ShortcodeV {
        match self {
            Shortcode::Ref(s) => ShortcodeV::Ref(s@),
            Shortcode::Opcode(s) => ShortcodeV::Opcode(s@),
        }
    }
}

/// The text of the first name token among `es`.
pub open spec fn first_ident(es: Seq<Element>) -> Option<Seq<char>> {
    let i = kind_index(es, SyntaxKind::Ident, 0);
    if 0 <= i < es.len() {
        Option::Some(token_text(es[i]))
    } else {
        Option::None
    }
}

/// The texts of the name tokens among `es`, in order.
pub open spec fn direct_idents(es: Seq<Element>) -> Seq<Seq<char>>
    decreases es.len(),
{
    if es.len() == 0 {
        Seq::empty()
    } else if is_token_kind(es.last(), SyntaxKind::Ident) {
        direct_idents(es.drop_last()).push(token_text(es.last()))
    } else {
        direct_idents(es.drop_last())
    }
}

/// The shortcode that an `extern "code" ...` declaration gives, by the
/// name it replaces: a binding `name = ...` or `name: T`, or a call of
/// `ns.method(...)` or `name(...)`.
pub open spec fn shortcode_entry(n: Node) -> Option<(Seq<char>, ShortcodeV)> {
    let cs = sig_list(n.children@);
    if cs.len() >= 3 && (is_token_kind(cs[1], SyntaxKind::DoubleString) || is_token_kind(
        cs[1],
        SyntaxKind::SingleString,
    )) && unquote(token_text(cs[1])).len() > 0 {
        let sc = unquote(token_text(cs[1]));
        let b: int = if is_mut_token(cs[2]) {
            3
        } else {
            2
        };
        if b < cs.len() {
            match cs[b] {
                Element::Node(body) => if body.kind == SyntaxKind::AssignExpr {
                    match first_ident(body.children@) {
                        Option::Some(name) => Option::Some((name, ShortcodeV::Ref(sc))),
                        Option::None => Option::None,
                    }
                } else if body.kind == SyntaxKind::CallExpr && sig_list(body.children@).len() > 0 {
                    match sig_list(body.children@)[0] {
                        Element::Node(nav) => {
                            let ids = direct_idents(nav.children@);
                            if nav.kind == SyntaxKind::NavExpr && ids.len() >= 2 {
                                Option::Some((ids[0] + seq!['.'] + ids[1], ShortcodeV::Opcode(sc)))
                            } else {
                                Option::None
                            }
                        },
                        Element::Token(t) => if t.kind == SyntaxKind::Ident {
                            Option::Some((t.text@, ShortcodeV::Opcode(sc)))
                        } else {
                            Option::None
                        },
                    }
                } else {
                    Option::None
                },
                Element::Token(_) => Option::None,
            }
        } else {
            Option::None
        }
    } else {
        Option::None
    }
}

/// The shortcodes of the `extern` declarations among `es`, by name; a
/// later declaration of a name replaces an earlier one.
pub open spec fn shortcodes_of(es: Seq<Element>) -> Seq<(Seq<char>, ShortcodeV)>
    decreases es.len(),
{
    if es.len() == 0 {
        Seq::empty()
    } else {
        let m = shortcodes_of(es.drop_last());
        match es.last() {
            Element::Node(n) => if n.kind == SyntaxKind::ExternDecl {
                match shortcode_entry(n) {
                    Option::Some((k, v)) => set_entry(m, k, v),
                    Option::None => m,
                }
            } else {
                m
            },
            Element::Token(_) => m,
        }
    }
}

/// The models of a vector of shortcodes by name.
pub open spec fn shortcodes_v(m: Seq<(String, Shortcode)>) -> Seq<(Seq<char>, ShortcodeV)> {
    Seq::new(m.len(), |i: int| (m[i].0@, m[i].1@))
}

/// The names directly under a navigation.
fn direct_idents_of(es: &Vec<Element>) -> (r: Vec<Vec<char>>)
    ensures
        Seq::new(r@.len(), |i: int| r@[i]@) == direct_idents(es@),
{
    let mut out: Vec<Vec<char>> = Vec::new();
    let mut i: usize = 0;
    proof {
        assert(es@.take(0) =~= Seq::<Element>::empty());
        assert(Seq::new(out@.len(), |j: int| out@[j]@) =~= direct_idents(es@.take(0)));
    }
    while i < es.len()
        invariant
            0 <= i <= es@.len(),
            Seq::new(out@.len(), |j: int| out@[j]@) == direct_idents(es@.take(i as int)),
        decreases es@.len() - i,
    {
        let ghost before = Seq::new(out@.len(), |j: int| out@[j]@);
        proof {
            assert(es@.take(i + 1).drop_last() =~= es@.take(i as int));
            assert(es@.take(i + 1).last() == es@[i as int]);
        }
        match &es[i] {
            Element::Token(t) => {
                if t.kind == SyntaxKind::Ident {
                    out.push(t.text.clone());
                    proof {
                        assert(Seq::new(out@.len(), |j: int| out@[j]@) =~= before.push(t.text@));
                    }
                }
            },
            Element::Node(_) => {},
        }
        i += 1;
    }
    proof {
        assert(es@.take(es@.len() as int) =~= es@);
    }
    out
}

/// The shortcode that an `extern` declaration gives (see `shortcode_entry`).
fn shortcode_entry_of(n: &Node) -> (r: Option<(String, Shortcode)>)
    ensures
        match r {
            Option::Some((k, v)) => shortcode_entry(*n) == Option::Some((k@, v@)),
            Option::None => shortcode_entry(*n) is None,
        },
{
    let es = &n.children;
    let pos = sig_positions(es, 0, es.len());
    proof {
        assert(es@.subrange(0, es@.len() as int) =~= es@);
    }
    if pos.len() < 3 {
        return Option::None;
    }
    let sc = match &es[pos[1]] {
        Element::Token(t) => {
            if t.kind != SyntaxKind::DoubleString && t.kind != SyntaxKind::SingleString {
                return Option::None;
            }
            let len = t.text.len();
            if len < 3 {
                proof {
                    if len < 2 {
                        assert(unquote(t.text@).len() == 0);
                    } else {
                        assert(unquote(t.text@).len() == 0);
                    }
                }
                return Option::None;
            }
            crate::lexer::slice_chars(&t.text, 1, len - 1)
        },
        Element::Node(_) => {
            return Option::None;
        },
    };
    let is_mut = match &es[pos[2]] {
        Element::Token(t) => word_is(t.text.as_slice(), &['m', 'u', 't']),
        Element::Node(_) => false,
    };
    let b: usize = if is_mut {
        3
    } else {
        2
    };
    if b >= pos.len() {
        return Option::None;
    }
    match &es[pos[b]] {
        Element::Node(body) => {
            if body.kind == SyntaxKind::AssignExpr {
                let bs = &body.children;
                let all: Vec<usize> = all_positions(bs.len());
                proof {
                    assert(pick(bs@, all@) =~= bs@);
                }
                let k = find_token(bs, &all, SyntaxKind::Ident, SyntaxKind::Ident, 0);
                if k < bs.len() {
                    proof {
                        assert(is_token_kind(pick(bs@, all@)[k as int], SyntaxKind::Ident)) by {
                            lemma_token_index_hit(pick(bs@, all@), SyntaxKind::Ident, SyntaxKind::Ident, 0);
                        }
                        assert(is_token_kind(bs@[k as int], SyntaxKind::Ident));
                    }
                    match &bs[k] {
                        Element::Token(t) => {
                            return Option::Some(
                                (chars_to_string(&t.text), Shortcode::Ref(chars_to_string(&sc))),
                            );
                        },
                        Element::Node(_) => {
                            return Option::None;
                        },
                    }
                }
                Option::None
            } else if body.kind == SyntaxKind::CallExpr {
                let bp = sig_positions(&body.children, 0, body.children.len());
                proof {
                    assert(body.children@.subrange(0, body.children@.len() as int)
                        =~= body.children@);
                }
                if bp.len() == 0 {
                    return Option::None;
                }
                match &body.children[bp[0]] {
                    Element::Node(nav) => {
                        let ids = direct_idents_of(&nav.children);
                        if nav.kind == SyntaxKind::NavExpr && ids.len() >= 2 {
                            let mut key = ids[0].clone();
                            key.push('.');
                            let mut second = ids[1].clone();
                            key.append(&mut second);
                            proof {
                                assert(key@ =~= ids@[0]@ + seq!['.'] + ids@[1]@);
                            }
                            Option::Some((chars_to_string(&key), Shortcode::Opcode(chars_to_string(&sc))))
                        } else {
                            Option::None
                        }
                    },
                    Element::Token(t) => {
                        if t.kind == SyntaxKind::Ident {
                            Option::Some((chars_to_string(&t.text), Shortcode::Opcode(chars_to_string(&sc))))
                        } else {
                            Option::None
                        }
                    },
                }
            } else {
                Option::None
            }
        },
        Element::Token(_) => Option::None,
    }
}

/// The positions `0, 1, ..., n - 1`.
fn all_positions(n: usize) -> (r: Vec<usize>)
    ensures
        r@.len() == n,
        forall|k: int| 0 <= k < n ==> #[trigger] r@[k] == k,
{
    let mut out: Vec<usize> = Vec::new();
    let mut i: usize = 0;
    while i < n
        invariant
            0 <= i <= n,
            out@.len() == i,
            forall|k: int| 0 <= k < i ==> #[trigger] out@[k] == k,
        decreases n - i,
    {
        out.push(i);
        i += 1;
    }
    out
}

/// The shortcodes that the `extern` declarations at the top of a tree give
/// (see `shortcodes_of`).
pub fn shortcodes_in(root: &Node) -> (r: Vec<(String, Shortcode)>)
    ensures
        shortcodes_v(r@) == shortcodes_of(root.children@),
{
    let es = &root.children;
    let mut map: Vec<(String, Shortcode)> = Vec::new();
    let mut i: usize = 0;
    proof {
        assert(es@.take(0) =~= Seq::<Element>::empty());
        assert(shortcodes_v(map@) =~= shortcodes_of(es@.take(0)));
    }
    while i < es.len()
        invariant
            0 <= i <= es@.len(),
            es == &root.children,
            shortcodes_v(map@) == shortcodes_of(es@.take(i as int)),
        decreases es@.len() - i,
    {
        proof {
            assert(es@.take(i + 1).drop_last() =~= es@.take(i as int));
            assert(es@.take(i + 1).last() == es@[i as int]);
        }
        match &es[i] {
            Element::Node(n) => {
                if n.kind == SyntaxKind::ExternDecl {
                    match shortcode_entry_of(n) {
                        Option::Some((k, v)) => {
                            let ghost old_m = shortcodes_v(map@);
                            let ghost kv = k@;
                            let ghost vv = v@;
                            proof {
                                lemma_key_pos(map@, old_m, kv, 0);
                            }
                            set_key(&mut map, k, v);
                            proof {
                                assert(shortcodes_v(map@) =~= set_entry(old_m, kv, vv));
                            }
                        },
                        Option::None => {},
                    }
                }
            },
            Element::Token(_) => {},
        }
        i += 1;
    }
    proof {
        assert(es@.take(es@.len() as int) =~= es@);
    }
    map
}

/// The shortcodes that declarations (`.rexd` source) give: for each
/// `extern "code" ...` declaration, the binding or function name it
/// replaces and its code (see `shortcodes_of`).
pub fn extract_shortcodes(domain: &str) -> (r: Vec<(String, Shortcode)>)
    requires
        domain@.len() + 4 <= usize::MAX,
    ensures
        exists|root: Node|
            crate::parser::is_parse_of(root, domain@) && shortcodes_v(r@) == shortcodes_of(
                root.children@,
            ),
{
    let root = crate::parser::parse(domain);
    shortcodes_in(&root)
}

} // verus!
