//! Go-to-definition inside a Rex document: where a local variable is
//! assigned, and where the properties of a navigation `a.b.c` are written in
//! the object literal assigned to `a`.

use vstd::prelude::*;
use vstd::string::StringSliceAdditionalSpecFns;
use vstd::utf8::is_char_boundary;
use crate::position::{chars_before, line_col_at, offset_to_line_col_0};
use crate::rexd::{is_token_kind, kind_index, token_text};
use crate::syntax::{
    Element, Node, SyntaxKind, concat_texts, is_trivia_kind, leaves, leaves_all,
    lemma_concat_texts_append, lemma_leaves_all_append, lemma_leaves_all_push, lemma_leaves_node,
    lemma_leaves_token,
};
use crate::text::{char_width, lemma_utf8_len_add, str_chars, utf8_len, utf8_width};

verus! {

// ── Offsets ─────────────────────────────────────────────────────────────

/// The number of bytes of the text of an element.
pub open spec fn elem_bytes(e: Element) -> int {
    utf8_len(concat_texts(leaves(e))) as int
}

/// The number of bytes of the text of a sequence of elements.
pub open spec fn list_bytes(es: Seq<Element>) -> int {
    utf8_len(concat_texts(leaves_all(es))) as int
}

/// Where the `i`-th of the elements `es` starts, when they start at `start`.
pub open spec fn child_offset(es: Seq<Element>, start: int, i: int) -> int {
    start + list_bytes(es.take(i))
}

proof fn lemma_list_bytes_step(es: Seq<Element>, i: int)
    requires
        0 <= i < es.len(),
    ensures
        list_bytes(es.take(i + 1)) == list_bytes(es.take(i)) + elem_bytes(es[i]),
        list_bytes(es.take(i + 1)) <= list_bytes(es),
        0 <= list_bytes(es.take(i)),
{
    assert(es.take(i + 1) =~= es.take(i).push(es[i]));
    lemma_leaves_all_push(es.take(i), es[i]);
    lemma_concat_texts_append(leaves_all(es.take(i)), leaves(es[i]));
    lemma_utf8_len_add(concat_texts(leaves_all(es.take(i))), concat_texts(leaves(es[i])));
    assert(es.take(i + 1) + es.skip(i + 1) =~= es);
    lemma_leaves_all_append(es.take(i + 1), es.skip(i + 1));
    lemma_concat_texts_append(leaves_all(es.take(i + 1)), leaves_all(es.skip(i + 1)));
    lemma_utf8_len_add(
        concat_texts(leaves_all(es.take(i + 1))),
        concat_texts(leaves_all(es.skip(i + 1))),
    );
}

proof fn lemma_node_bytes(n: Node)
    ensures
        elem_bytes(Element::Node(n)) == list_bytes(n.children@),
{
    lemma_leaves_node(n);
}

// ── Definitions ─────────────────────────────────────────────────────────

/// A definition: the byte span of the defining name, and the value assigned
/// with it (a node and where it starts), if any.
pub struct Def {
    pub start: int,
    pub end: int,
    pub value: Option<(Node, int)>,
}

/// Index of the first element from `i` on that is not whitespace or a
/// comment, or -1.
pub open spec fn first_sig_from(es: Seq<Element>, i: int) -> int
    decreases es.len() - i,
{
    if i < 0 || i >= es.len() {
        -1
    } else if !(es[i] matches Element::Token(t) && is_trivia_kind(t.kind)) {
        i
    } else {
        first_sig_from(es, i + 1)
    }
}

/// The node after index `i` (past whitespace and comments) with where it
/// starts, if the next element is a node.
pub open spec fn node_after(es: Seq<Element>, start: int, i: int) -> Option<(Node, int)> {
    let j = first_sig_from(es, i + 1);
    if 0 <= j < es.len() {
        match es[j] {
            Element::Node(v) => Option::Some((v, child_offset(es, start, j))),
            Element::Token(_) => Option::None,
        }
    } else {
        Option::None
    }
}

/// What an assignment `name = value` or `name: T [= value]` defines: the
/// index of its name and its value.
pub open spec fn assign_def(n: Node, start: int) -> Option<(int, Option<(Node, int)>)> {
    let es = n.children@;
    let f = first_sig_from(es, 0);
    if n.kind == SyntaxKind::AssignExpr && 0 <= f < es.len() && is_token_kind(
        es[f],
        SyntaxKind::Ident,
    ) {
        let eq = kind_index(es, SyntaxKind::Eq, 0);
        if 0 <= eq < es.len() {
            Option::Some((f, node_after(es, start, eq)))
        } else if kind_index(es, SyntaxKind::Colon, 0) >= 0 {
            Option::Some((f, Option::None))
        } else {
            Option::None
        }
    } else {
        Option::None
    }
}

/// The span of the `i`-th of the elements `es` that start at `start`.
pub open spec fn span_at(es: Seq<Element>, start: int, i: int) -> (int, int) {
    (child_offset(es, start, i), child_offset(es, start, i) + elem_bytes(es[i]))
}

/// What node `n`, starting at `start`, defines under `name`: an assignment
/// to `name`, or an `extern` whose first name token is `name`. Only nodes
/// that start at or before `limit` count.
pub open spec fn node_def(n: Node, start: int, name: Seq<char>, limit: int) -> Option<Def> {
    let es = n.children@;
    if start > limit {
        Option::None
    } else {
        match assign_def(n, start) {
            Option::Some((f, v)) => if token_text(es[f]) == name {
                Option::Some(Def { start: span_at(es, start, f).0, end: span_at(es, start, f).1, value: v })
            } else {
                Option::None
            },
            Option::None => {
                let x = kind_index(es, SyntaxKind::Ident, 0);
                if n.kind == SyntaxKind::ExternDecl && 0 <= x < es.len() && token_text(es[x]) == name {
                    Option::Some(Def { start: span_at(es, start, x).0, end: span_at(es, start, x).1, value: Option::None })
                } else {
                    Option::None
                }
            },
        }
    }
}

/// The last definition of `name` in the tree of `e` (which starts at
/// `start`), in document order of the defining nodes.
pub open spec fn last_def(e: Element, start: int, name: Seq<char>, limit: int) -> Option<Def>
    decreases e, 1nat,
{
    match e {
        Element::Token(_) => Option::None,
        Element::Node(n) => match last_def_list(n.children@, start, name, limit) {
            Option::Some(d) => Option::Some(d),
            Option::None => node_def(n, start, name, limit),
        },
    }
}

/// The last definition of `name` in the trees of `es`, which start at `start`.
pub open spec fn last_def_list(es: Seq<Element>, start: int, name: Seq<char>, limit: int) -> Option<
    Def,
>
    decreases es, 0nat,
{
    if es.len() == 0 {
        Option::None
    } else {
        proof {
            assert(decreases_to!(es => es.drop_last()));
        }
        match last_def(es.last(), start + list_bytes(es.drop_last()), name, limit) {
            Option::Some(d) => Option::Some(d),
            Option::None => last_def_list(es.drop_last(), start, name, limit),
        }
    }
}

// ── Finding definitions ─────────────────────────────────────────────────

/// A definition found in a tree.
struct Found<'a> {
    start: usize,
    end: usize,
    value: Option<(&'a Node, usize)>,
}

/// The model of a value found: the node and where it starts.
spec fn val_v(v: Option<(&Node, usize)>) -> Option<(Node, int)> {
    match v {
        Option::Some((n, s)) => Option::Some((*n, s as int)),
        Option::None => Option::None,
    }
}

/// The model of a definition found.
spec fn found_v(f: Found) -> Def {
    Def { start: f.start as int, end: f.end as int, value: val_v(f.value) }
}

/// The model of an optional definition found.
spec fn found_opt(f: Option<Found>) -> Option<Def> {
    match f {
        Option::Some(d) => Option::Some(found_v(d)),
        Option::None => Option::None,
    }
}

/// The number of bytes of the text of `e`.
fn elem_len(e: &Element) -> (r: usize)
    requires
        elem_bytes(*e) <= usize::MAX,
    ensures
        r == elem_bytes(*e),
    decreases e,
{
    match e {
        Element::Token(t) => {
            proof {
                lemma_leaves_token(*t);
                assert(concat_texts(seq![t@]).len() >= 0);
                assert(seq![t@].drop_last() =~= Seq::<(SyntaxKind, Seq<char>)>::empty());
                assert(concat_texts(Seq::<(SyntaxKind, Seq<char>)>::empty()) =~= Seq::<char>::empty());
                assert(concat_texts(seq![t@]) == concat_texts(seq![t@].drop_last()) + t.text@);
                assert(Seq::<char>::empty() + t.text@ =~= t.text@);
                assert(concat_texts(seq![t@]) =~= t.text@);
            }
            let mut n: usize = 0;
            let mut i: usize = 0;
            proof {
                assert(t.text@.take(0) =~= Seq::<char>::empty());
            }
            while i < t.text.len()
                invariant
                    0 <= i <= t.text@.len(),
                    n == utf8_len(t.text@.take(i as int)),
                    utf8_len(t.text@) <= usize::MAX,
                decreases t.text@.len() - i,
            {
                let c = t.text[i];
                proof {
                    assert(t.text@.take(i + 1) =~= t.text@.take(i as int) + seq![c]);
                    lemma_utf8_len_add(t.text@.take(i as int), seq![c]);
                    assert(seq![c].drop_last() =~= Seq::<char>::empty());
                    assert(utf8_len(Seq::<char>::empty()) == 0);
                    assert(utf8_len(seq![c]) == utf8_width(c));
                    lemma_utf8_len_add(t.text@.take(i + 1), t.text@.skip(i + 1));
                    assert(t.text@.take(i + 1) + t.text@.skip(i + 1) =~= t.text@);
                }
                n = n + char_width(c);
                i += 1;
            }
            proof {
                assert(t.text@.take(i as int) =~= t.text@);
            }
            n
        },
        Element::Node(nd) => {
            proof {
                lemma_node_bytes(*nd);
                assert(decreases_to!(*e => *nd));
            }
            node_len(nd)
        },
    }
}

/// The number of bytes of the text of the children of `nd`.
fn node_len(nd: &Node) -> (r: usize)
    requires
        list_bytes(nd.children@) <= usize::MAX,
    ensures
        r == list_bytes(nd.children@),
    decreases nd,
{
    let es = &nd.children;
    let mut total: usize = 0;
    let mut i: usize = 0;
    proof {
        assert(es@.take(0) =~= Seq::<Element>::empty());
    }
    while i < es.len()
        invariant
            0 <= i <= es@.len(),
            es == &nd.children,
            total == list_bytes(es@.take(i as int)),
            list_bytes(es@) <= usize::MAX,
        decreases es@.len() - i,
    {
        proof {
            lemma_list_bytes_step(es@, i as int);
            assert(decreases_to!(*nd => nd.children));
            assert(decreases_to!(nd.children => nd.children@));
            assert(decreases_to!(nd.children@ => nd.children@[i as int]));
        }
        let k = elem_len(&es[i]);
        total = total + k;
        i += 1;
    }
    proof {
        assert(es@.take(es@.len() as int) =~= es@);
    }
    total
}

/// Whether element `j` of `es` is a whitespace or comment token.
fn is_trivia_at(es: &Vec<Element>, j: usize) -> (r: bool)
    requires
        j < es@.len(),
    ensures
        r == (es@[j as int] matches Element::Token(t) && is_trivia_kind(t.kind)),
{
    match &es[j] {
        Element::Token(t) => t.kind.is_trivia(),
        Element::Node(_) => false,
    }
}

/// Whether element `j` of `es` is a token of kind `k`.
fn kind_at(es: &Vec<Element>, j: usize, k: SyntaxKind) -> (r: bool)
    requires
        j < es@.len(),
    ensures
        r == is_token_kind(es@[j as int], k),
{
    match &es[j] {
        Element::Token(t) => t.kind == k,
        Element::Node(_) => false,
    }
}

/// Index of the first element from `i` on that is not whitespace or a
/// comment, or the length of `es`.
fn first_sig_idx(es: &Vec<Element>, i: usize) -> (r: usize)
    requires
        i <= es@.len(),
    ensures
        i <= r <= es@.len(),
        r < es@.len() ==> first_sig_from(es@, i as int) == r,
        r == es@.len() ==> first_sig_from(es@, i as int) == -1,
{
    let mut j = i;
    while j < es.len() && is_trivia_at(es, j)
        invariant
            i <= j <= es@.len(),
            first_sig_from(es@, i as int) == first_sig_from(es@, j as int),
        decreases es@.len() - j,
    {
        j += 1;
    }
    j
}

/// Index of the first token of kind `k`, or the length of `es`.
fn kind_idx(es: &Vec<Element>, k: SyntaxKind) -> (r: usize)
    ensures
        r <= es@.len(),
        r < es@.len() ==> kind_index(es@, k, 0) == r,
        r == es@.len() ==> kind_index(es@, k, 0) == -1,
{
    let mut j: usize = 0;
    while j < es.len() && !kind_at(es, j, k)
        invariant
            0 <= j <= es@.len(),
            kind_index(es@, k, 0) == kind_index(es@, k, j as int),
        decreases es@.len() - j,
    {
        j += 1;
    }
    j
}

/// Where child `i` of `es` starts and ends, when `es` starts at `start`.
fn span_of_child(es: &Vec<Element>, start: usize, i: usize) -> (r: (usize, usize))
    requires
        i < es@.len(),
        start + list_bytes(es@) <= usize::MAX,
    ensures
        r.0 == span_at(es@, start as int, i as int).0,
        r.1 == span_at(es@, start as int, i as int).1,
{
    let mut off = start;
    let mut k: usize = 0;
    proof {
        assert(es@.take(0) =~= Seq::<Element>::empty());
    }
    while k < i
        invariant
            0 <= k <= i < es@.len(),
            off == start + list_bytes(es@.take(k as int)),
            start + list_bytes(es@) <= usize::MAX,
        decreases i - k,
    {
        proof {
            lemma_list_bytes_step(es@, k as int);
        }
        let n = elem_len(&es[k]);
        off = off + n;
        k += 1;
    }
    proof {
        lemma_list_bytes_step(es@, i as int);
    }
    let n = elem_len(&es[i]);
    (off, off + n)
}

/// The node after index `i` with where it starts.
fn node_after_of<'a>(es: &'a Vec<Element>, start: usize, i: usize) -> (r: Option<(&'a Node, usize)>)
    requires
        i < es@.len(),
        start + list_bytes(es@) <= usize::MAX,
    ensures
        match r {
            Option::Some((v, s)) => node_after(es@, start as int, i as int) == Option::Some(
                (*v, s as int),
            ),
            Option::None => node_after(es@, start as int, i as int) is None,
        },
{
    let _len = es.len();
    let j = first_sig_idx(es, i + 1);
    if j >= es.len() {
        return Option::None;
    }
    match &es[j] {
        Element::Node(v) => {
            let (s, _) = span_of_child(es, start, j);
            Option::Some((v, s))
        },
        Element::Token(_) => Option::None,
    }
}

/// Whether the token at `i` of `es` is spelled `name`.
fn token_is(es: &Vec<Element>, i: usize, name: &Vec<char>) -> (r: bool)
    requires
        i < es@.len(),
    ensures
        r == (token_text(es@[i as int]) == name@),
{
    match &es[i] {
        Element::Token(t) => {
            proof {
                assert(token_text(es@[i as int]) == t.text@);
            }
            crate::lexer::word_is(t.text.as_slice(), name.as_slice())
        },
        Element::Node(_) => {
            proof {
                assert(token_text(es@[i as int]) =~= Seq::<char>::empty());
                assert(name@.len() == 0 ==> name@ =~= Seq::<char>::empty());
            }
            name.len() == 0
        },
    }
}

/// What node `n` defines under `name` (see `node_def`).
fn node_def_of<'a>(n: &'a Node, start: usize, name: &Vec<char>, limit: usize) -> (r: Option<Found<'a>>)
    requires
        start + list_bytes(n.children@) <= usize::MAX,
    ensures
        found_opt(r) == node_def(*n, start as int, name@, limit as int),
{
    if start > limit {
        return Option::None;
    }
    let es = &n.children;
    let f = first_sig_idx(es, 0);
    let is_assign = n.kind == SyntaxKind::AssignExpr && f < es.len() && match &es[f] {
        Element::Token(t) => t.kind == SyntaxKind::Ident,
        Element::Node(_) => false,
    };
    if is_assign {
        let eq = kind_idx(es, SyntaxKind::Eq);
        let colon = kind_idx(es, SyntaxKind::Colon);
        if eq < es.len() || colon < es.len() {
            if !token_is(es, f, name) {
                return Option::None;
            }
            let (a, b) = span_of_child(es, start, f);
            let value = if eq < es.len() {
                node_after_of(es, start, eq)
            } else {
                Option::None
            };
            return Option::Some(Found { start: a, end: b, value });
        }
    }
    if n.kind != SyntaxKind::ExternDecl {
        return Option::None;
    }
    let x = kind_idx(es, SyntaxKind::Ident);
    if x < es.len() && token_is(es, x, name) {
        let (a, b) = span_of_child(es, start, x);
        Option::Some(Found { start: a, end: b, value: Option::None })
    } else {
        Option::None
    }
}

/// The last definition of `name` in the tree of `e` (see `last_def`).
fn last_def_of<'a>(e: &'a Element, start: usize, name: &Vec<char>, limit: usize) -> (r: Option<
    Found<'a>,
>)
    requires
        start + elem_bytes(*e) <= usize::MAX,
    ensures
        found_opt(r) == last_def(*e, start as int, name@, limit as int),
    decreases e, 0nat,
{
    match e {
        Element::Token(_) => Option::None,
        Element::Node(nd) => {
            proof {
                lemma_node_bytes(*nd);
            }
            last_def_of_node(nd, start, name, limit)
        },
    }
}

/// The last definition of `name` in the tree of `nd` (see `last_def`).
fn last_def_of_node<'a>(nd: &'a Node, start: usize, name: &Vec<char>, limit: usize) -> (r: Option<
    Found<'a>,
>)
    requires
        start + list_bytes(nd.children@) <= usize::MAX,
    ensures
        found_opt(r) == last_def(Element::Node(*nd), start as int, name@, limit as int),
    decreases *nd, 1nat,
{
    let es = &nd.children;
    let mut best: Option<Found<'a>> = Option::None;
    let mut off = start;
    let mut i: usize = 0;
    proof {
        assert(es@.take(0) =~= Seq::<Element>::empty());
    }
    while i < es.len()
        invariant
            0 <= i <= es@.len(),
            es == &nd.children,
            off == start + list_bytes(es@.take(i as int)),
            start + list_bytes(es@) <= usize::MAX,
            found_opt(best) == last_def_list(es@.take(i as int), start as int, name@, limit as int),
        decreases es@.len() - i,
    {
        proof {
            lemma_list_bytes_step(es@, i as int);
            assert(es@.take(i + 1).drop_last() =~= es@.take(i as int));
            assert(es@.take(i + 1).last() == es@[i as int]);
            assert(decreases_to!(*nd => nd.children));
            assert(decreases_to!(nd.children => nd.children@));
            assert(decreases_to!(nd.children@ => nd.children@[i as int]));
        }
        match last_def_of(&es[i], off, name, limit) {
            Option::Some(d) => {
                best = Option::Some(d);
            },
            Option::None => {},
        }
        let k = elem_len(&es[i]);
        off = off + k;
        i += 1;
    }
    proof {
        assert(es@.take(es@.len() as int) =~= es@);
    }
    match best {
        Option::Some(d) => Option::Some(d),
        Option::None => node_def_of(nd, start, name, limit),
    }
}

// ── Ranges ──────────────────────────────────────────────────────────────

/// A range of a document: 0-based lines and character columns of its start
/// and of its end.
#[derive(Debug, Clone, Copy, PartialEq, Eq, Structural)]
pub struct SourceRange {
    pub start_line: u32,
    pub start_col: u32,
    pub end_line: u32,
    pub end_col: u32,
}

/// The range of bytes `a` to `b` of `s`.
pub open spec fn range_at(s: Seq<char>, a: int, b: int) -> SourceRange {
    SourceRange {
        start_line: (line_col_at(s, a).0 - 1) as u32,
        start_col: (line_col_at(s, a).1 - 1) as u32,
        end_line: (line_col_at(s, b).0 - 1) as u32,
        end_col: (line_col_at(s, b).1 - 1) as u32,
    }
}

/// The range of bytes `a` to `b` of `source`.
pub(crate) fn range_of(source: &str, a: usize, b: usize) -> (r: SourceRange)
    requires
        source@.len() < u32::MAX,
    ensures
        r == range_at(source@, a as int, b as int),
{
    let (l0, c0) = offset_to_line_col_0(source, a);
    let (l1, c1) = offset_to_line_col_0(source, b);
    SourceRange { start_line: l0, start_col: c0, end_line: l1, end_col: c1 }
}

/// Whether `root` is the tree that the parser builds from `source`.
pub open spec fn tree_of(root: Node, source: Seq<char>) -> bool {
    crate::parser::is_parse_of(root, source)
}

/// What `local_variable_definition` gives on the tree `root` of `source`:
/// the range of the name of the last definition of `name` among the nodes
/// that start at or before `offset`.
pub open spec fn local_def_range(root: Node, source: Seq<char>, name: Seq<char>, offset: int, r: Option<SourceRange>) -> bool {
    match last_def(Element::Node(root), 0, name, offset) {
        Option::Some(d) => r == Option::Some(range_at(source, d.start, d.end)),
        Option::None => r is None,
    }
}

/// The last definition of `name` in the tree of `source`, among the nodes
/// that start at or before `offset`.
fn find_local<'a>(root: &'a Node, source: &str, name: &Vec<char>, offset: usize) -> (r: Option<Found<'a>>)
    requires
        tree_of(*root, source@),
    ensures
        found_opt(r) == last_def(Element::Node(*root), 0, name@, offset as int),
{
    let _n = crate::cursor::byte_len(source);
    last_def_of_node(root, 0, name, offset)
}

/// The span of the name of the last definition of `name` in `root`, a
/// tree of `source`, among the nodes that start at or before `offset`.
pub(crate) fn def_span_in(root: &Node, source: &str, name: &Vec<char>, offset: usize) -> (r: Option<(usize, usize)>)
    requires
        tree_of(*root, source@),
    ensures
        match r {
            Option::Some((a, b)) => last_def(Element::Node(*root), 0, name@, offset as int) matches Option::Some(d)
                && d.start == a && d.end == b,
            Option::None => last_def(Element::Node(*root), 0, name@, offset as int) is None,
        },
{
    match find_local(root, source, name, offset) {
        Option::Some(d) => Option::Some((d.start, d.end)),
        Option::None => Option::None,
    }
}

/// Where the local variable `word` is defined: the name in the last
/// assignment `word = ..` (or `word: T ..`) or `extern` declaration of it
/// among the nodes of the document that start at or before byte `offset`.
pub fn local_variable_definition(word: &str, source: &str, offset: usize) -> (r: Option<SourceRange>)
    requires
        source@.len() + 4 <= usize::MAX,
        source@.len() < u32::MAX,
    ensures
        exists|root: Node| tree_of(root, source@) && local_def_range(root, source@, word@, offset as int, r),
{
    let root = crate::parser::parse(source);
    let name = str_chars(word);
    let found = find_local(&root, source, &name, offset);
    match found {
        Option::Some(d) => Option::Some(range_of(source, d.start, d.end)),
        Option::None => Option::None,
    }
}


// ── Navigations ─────────────────────────────────────────────────────────

/// Whether the value `v` (a node and where it starts) ends at or before
/// byte `bound`.
pub open spec fn fits(v: Option<(Node, int)>, bound: int) -> bool {
    match v {
        Option::Some((n, s)) => 0 <= s && s + list_bytes(n.children@) <= bound,
        Option::None => true,
    }
}

proof fn lemma_node_after_fits(es: Seq<Element>, start: int, i: int)
    requires
        0 <= i < es.len(),
        0 <= start,
    ensures
        fits(node_after(es, start, i), start + list_bytes(es)),
{
    let j = first_sig_from(es, i + 1);
    if 0 <= j < es.len() {
        lemma_list_bytes_step(es, j);
        match es[j] {
            Element::Node(v) => {
                lemma_node_bytes(v);
            },
            Element::Token(_) => {},
        }
    }
}

proof fn lemma_last_def_fits(e: Element, start: int, name: Seq<char>, limit: int)
    requires
        0 <= start,
    ensures
        match last_def(e, start, name, limit) {
            Option::Some(d) => fits(d.value, start + elem_bytes(e)),
            Option::None => true,
        },
    decreases e, 1nat,
{
    match e {
        Element::Token(_) => {},
        Element::Node(n) => {
            lemma_node_bytes(n);
            lemma_last_def_list_fits(n.children@, start, name, limit);
            let es = n.children@;
            let eq = kind_index(es, SyntaxKind::Eq, 0);
            if 0 <= eq < es.len() {
                lemma_node_after_fits(es, start, eq);
            }
        },
    }
}

proof fn lemma_last_def_list_fits(es: Seq<Element>, start: int, name: Seq<char>, limit: int)
    requires
        0 <= start,
    ensures
        match last_def_list(es, start, name, limit) {
            Option::Some(d) => fits(d.value, start + list_bytes(es)),
            Option::None => true,
        },
    decreases es, 0nat,
{
    if es.len() > 0 {
        let k = es.len() - 1;
        assert(decreases_to!(es => es.drop_last()));
        assert(es.take(k) =~= es.drop_last());
        assert(es.take(k + 1) =~= es);
        lemma_list_bytes_step(es, k);
        lemma_last_def_fits(es.last(), start + list_bytes(es.drop_last()), name, limit);
        lemma_last_def_list_fits(es.drop_last(), start, name, limit);
    }
}

/// The non-empty parts of `w` between dots seen so far, and the part being
/// read.
pub open spec fn split_dots(w: Seq<char>) -> (Seq<Seq<char>>, Seq<char>)
    decreases w.len(),
{
    if w.len() == 0 {
        (Seq::empty(), Seq::empty())
    } else {
        let (d, c) = split_dots(w.drop_last());
        if w.last() == '.' {
            (if c.len() > 0 { d.push(c) } else { d }, Seq::empty())
        } else {
            (d, c.push(w.last()))
        }
    }
}

/// The non-empty parts of `w` between dots.
pub open spec fn dot_parts(w: Seq<char>) -> Seq<Seq<char>> {
    let (d, c) = split_dots(w);
    if c.len() > 0 {
        d.push(c)
    } else {
        d
    }
}

/// The number of dots among the characters of `w`, from the `i`-th on, that
/// start before byte `rel`.
pub open spec fn dots_before(w: Seq<char>, rel: int, i: int) -> int
    decreases w.len() - i,
{
    if i < 0 || i >= w.len() || utf8_len(w.take(i)) >= rel {
        0
    } else {
        (if w[i] == '.' { 1int } else { 0int }) + dots_before(w, rel, i + 1)
    }
}

/// Which part of the navigation `w` the cursor at byte `offset` of `s` is
/// on: the dots of `w` before the cursor's distance from where the dotted
/// word around it starts.
pub open spec fn segment_index(s: Seq<char>, offset: int, w: Seq<char>) -> int {
    let start = utf8_len(s.take(crate::cursor::word_start(s, chars_before(s, offset), true))) as int;
    let a = if offset > start { offset - start } else { 0 };
    let b = if utf8_len(w) > 0 { utf8_len(w) - 1 } else { 0 };
    dots_before(w, if a < b { a } else { b }, 0)
}

/// The entry of a `key: value` pair node that starts at `start`: the key,
/// its span and the value.
pub open spec fn pair_entry(p: Node, start: int) -> Option<(Seq<char>, int, int, Option<(Node, int)>)> {
    let es = p.children@;
    let colon = kind_index(es, SyntaxKind::Colon, 0);
    let f = first_sig_from(es, 0);
    if p.kind == SyntaxKind::Pair && 0 <= colon < es.len() && 0 <= f < es.len() && is_token_kind(
        es[f],
        SyntaxKind::Ident,
    ) {
        Option::Some(
            (
                token_text(es[f]),
                span_at(es, start, f).0,
                span_at(es, start, f).1,
                node_after(es, start, colon),
            ),
        )
    } else {
        Option::None
    }
}

/// The first pair among the elements `es` (from the `i`-th on, starting at
/// `start`) whose key is `key`: the key's span and the value.
pub open spec fn find_prop_from(es: Seq<Element>, start: int, key: Seq<char>, i: int) -> Option<
    (int, int, Option<(Node, int)>),
>
    decreases es.len() - i,
{
    if i < 0 || i >= es.len() {
        Option::None
    } else {
        match es[i] {
            Element::Node(p) => match pair_entry(p, child_offset(es, start, i)) {
                Option::Some((k, a, b, v)) => if k == key {
                    Option::Some((a, b, v))
                } else {
                    find_prop_from(es, start, key, i + 1)
                },
                Option::None => find_prop_from(es, start, key, i + 1),
            },
            Element::Token(_) => find_prop_from(es, start, key, i + 1),
        }
    }
}

/// The property `key` of the object literal `v`.
pub open spec fn object_prop(v: Option<(Node, int)>, key: Seq<char>) -> Option<(int, int, Option<(Node, int)>)> {
    match v {
        Option::Some((n, s)) => if n.kind == SyntaxKind::ObjectExpr || n.kind
            == SyntaxKind::IndexedObjectExpr {
            find_prop_from(n.children@, s, key, 0)
        } else {
            Option::None
        },
        Option::None => Option::None,
    }
}

/// Following the parts of a navigation from the `idx`-th on through the
/// object literals from `v`: the span of the key of part `seg`.
pub open spec fn nav_walk(v: Option<(Node, int)>, parts: Seq<Seq<char>>, idx: int, seg: int) -> Option<(int, int)>
    decreases parts.len() - idx,
{
    if idx < 0 || idx >= parts.len() {
        Option::None
    } else {
        match object_prop(v, parts[idx]) {
            Option::None => Option::None,
            Option::Some((a, b, w)) => if idx == seg {
                Option::Some((a, b))
            } else {
                nav_walk(w, parts, idx + 1, seg)
            },
        }
    }
}

/// Where the part of the navigation `w` under the cursor at byte `offset`
/// is defined, in the tree `root`: the span of the base variable's name, or
/// of the key of the property in the object literals assigned to it.
pub open spec fn nav_target(root: Node, s: Seq<char>, w: Seq<char>, offset: int) -> Option<(int, int)> {
    let parts = dot_parts(w);
    if parts.len() == 0 {
        Option::None
    } else {
        let seg = segment_index(s, offset, w);
        match last_def(Element::Node(root), 0, parts[0], offset) {
            Option::None => Option::None,
            Option::Some(d) => if seg == 0 {
                Option::Some((d.start, d.end))
            } else {
                nav_walk(d.value, parts, 1, seg)
            },
        }
    }
}

/// The views of a sequence of character vectors.
pub open spec fn char_views(v: Seq<Vec<char>>) -> Seq<Seq<char>> {
    Seq::new(v.len(), |i: int| v[i]@)
}

/// The non-empty parts of `w` between dots (see `dot_parts`).
fn split_parts(w: &Vec<char>) -> (r: Vec<Vec<char>>)
    ensures
        char_views(r@) == dot_parts(w@),
{
    let mut d: Vec<Vec<char>> = Vec::new();
    let mut c: Vec<char> = Vec::new();
    let mut i: usize = 0;
    proof {
        assert(w@.take(0) =~= Seq::<char>::empty());
        assert(char_views(d@) =~= Seq::<Seq<char>>::empty());
    }
    while i < w.len()
        invariant
            0 <= i <= w@.len(),
            char_views(d@) == split_dots(w@.take(i as int)).0,
            c@ == split_dots(w@.take(i as int)).1,
        decreases w@.len() - i,
    {
        let ch = w[i];
        proof {
            assert(w@.take(i + 1).drop_last() =~= w@.take(i as int));
            assert(w@.take(i + 1).last() == ch);
        }
        if ch == '.' {
            if c.len() > 0 {
                let ghost before = d@;
                let part = c;
                d.push(part);
                proof {
                    assert(char_views(d@) =~= char_views(before).push(part@));
                }
            }
            c = Vec::new();
            proof {
                assert(c@ =~= Seq::<char>::empty());
            }
        } else {
            c.push(ch);
        }
        i += 1;
    }
    proof {
        assert(w@.take(w@.len() as int) =~= w@);
    }
    if c.len() > 0 {
        let ghost before = d@;
        let part = c;
        d.push(part);
        proof {
            assert(char_views(d@) =~= char_views(before).push(part@));
        }
    }
    d
}

/// How many characters of `chars` start before byte `offset`.
fn count_chars_before(chars: &Vec<char>, offset: usize) -> (r: usize)
    requires
        utf8_len(chars@) <= usize::MAX,
    ensures
        r == chars_before(chars@, offset as int),
        r <= chars@.len(),
{
    let ghost s = chars@;
    let mut byte: usize = 0;
    let mut j: usize = 0;
    proof {
        assert(s.take(0) =~= Seq::<char>::empty());
    }
    while j < chars.len() && byte < offset
        invariant
            0 <= j <= s.len(),
            chars@ == s,
            utf8_len(s) <= usize::MAX,
            byte == utf8_len(s.take(j as int)),
            crate::position::chars_before_from(s, offset as int, 0)
                == crate::position::chars_before_from(s, offset as int, j as int),
        decreases s.len() - j,
    {
        let c = chars[j];
        proof {
            step_bytes(s, j as int);
        }
        byte = byte + char_width(c);
        j += 1;
    }
    j
}

proof fn step_bytes(s: Seq<char>, j: int)
    requires
        0 <= j < s.len(),
    ensures
        utf8_len(s.take(j + 1)) == utf8_len(s.take(j)) + utf8_width(s[j]),
        utf8_len(s.take(j + 1)) <= utf8_len(s),
{
    assert(s.take(j + 1).drop_last() =~= s.take(j));
    lemma_utf8_len_add(s.take(j + 1), s.skip(j + 1));
    assert(s.take(j + 1) + s.skip(j + 1) =~= s);
}

/// The number of bytes of the first `n` characters of `chars`.
fn prefix_bytes(chars: &Vec<char>, n: usize) -> (r: usize)
    requires
        n <= chars@.len(),
        utf8_len(chars@) <= usize::MAX,
    ensures
        r == utf8_len(chars@.take(n as int)),
{
    let mut byte: usize = 0;
    let mut j: usize = 0;
    proof {
        assert(chars@.take(0) =~= Seq::<char>::empty());
    }
    while j < n
        invariant
            0 <= j <= n <= chars@.len(),
            utf8_len(chars@) <= usize::MAX,
            byte == utf8_len(chars@.take(j as int)),
        decreases n - j,
    {
        proof {
            step_bytes(chars@, j as int);
        }
        byte = byte + char_width(chars[j]);
        j += 1;
    }
    byte
}

/// The number of dots of `w` that start before byte `rel`.
fn count_dots(w: &Vec<char>, rel: usize) -> (r: usize)
    requires
        utf8_len(w@) <= usize::MAX,
    ensures
        r == dots_before(w@, rel as int, 0),
{
    let mut byte: usize = 0;
    let mut count: usize = 0;
    let mut i: usize = 0;
    proof {
        assert(w@.take(0) =~= Seq::<char>::empty());
    }
    while i < w.len() && byte < rel
        invariant
            0 <= i <= w@.len(),
            utf8_len(w@) <= usize::MAX,
            byte == utf8_len(w@.take(i as int)),
            count <= i,
            count + dots_before(w@, rel as int, i as int) == dots_before(w@, rel as int, 0),
        decreases w@.len() - i,
    {
        proof {
            step_bytes(w@, i as int);
        }
        if w[i] == '.' {
            count = count + 1;
        }
        byte = byte + char_width(w[i]);
        i += 1;
    }
    count
}

/// Which part of the navigation `word` the cursor at byte `offset` of
/// `source` is on (see `segment_index`).
fn segment_of(source: &str, offset: usize, word: &Vec<char>, word_bytes: usize) -> (r: usize)
    requires
        word_bytes == utf8_len(word@),
    ensures
        r == segment_index(source@, offset as int, word@),
{
    let chars = str_chars(source);
    let _n = crate::cursor::byte_len(source);
    let k = count_chars_before(&chars, offset);
    let ws = crate::cursor::start_of_word(&chars, k, true);
    let start = prefix_bytes(&chars, ws);
    let a = if offset > start { offset - start } else { 0 };
    let b = if word_bytes > 0 { word_bytes - 1 } else { 0 };
    count_dots(word, if a < b { a } else { b })
}

/// The model of a property found: its key's span and its value.
spec fn prop_v(r: Option<(usize, usize, Option<(&Node, usize)>)>) -> Option<(int, int, Option<(Node, int)>)> {
    match r {
        Option::Some((a, b, v)) => Option::Some((a as int, b as int, val_v(v))),
        Option::None => Option::None,
    }
}

/// The entry of the pair node `p` if its key is `key` (see `pair_entry`).
fn pair_with_key<'a>(p: &'a Node, start: usize, key: &Vec<char>) -> (r: Option<(usize, usize, Option<(&'a Node, usize)>)>)
    requires
        start + list_bytes(p.children@) <= usize::MAX,
    ensures
        prop_v(r) == match pair_entry(*p, start as int) {
            Option::Some((k, a, b, v)) => if k == key@ {
                Option::Some((a, b, v))
            } else {
                Option::None
            },
            Option::None => Option::None,
        },
{
    let es = &p.children;
    if p.kind != SyntaxKind::Pair {
        return Option::None;
    }
    let colon = kind_idx(es, SyntaxKind::Colon);
    let f = first_sig_idx(es, 0);
    if colon >= es.len() || f >= es.len() || !kind_at(es, f, SyntaxKind::Ident) {
        return Option::None;
    }
    if !token_is(es, f, key) {
        return Option::None;
    }
    let (a, b) = span_of_child(es, start, f);
    let v = node_after_of(es, start, colon);
    Option::Some((a, b, v))
}

/// The property `key` of the object literal `n` that starts at `start`.
fn object_prop_of<'a>(n: &'a Node, start: usize, key: &Vec<char>) -> (r: Option<(usize, usize, Option<(&'a Node, usize)>)>)
    requires
        start + list_bytes(n.children@) <= usize::MAX,
    ensures
        prop_v(r) == object_prop(Option::Some((*n, start as int)), key@),
        match prop_v(r) {
            Option::Some((_, _, v)) => fits(v, start + list_bytes(n.children@)),
            Option::None => true,
        },
{
    if n.kind != SyntaxKind::ObjectExpr && n.kind != SyntaxKind::IndexedObjectExpr {
        return Option::None;
    }
    let es = &n.children;
    let mut off = start;
    let mut i: usize = 0;
    proof {
        assert(es@.take(0) =~= Seq::<Element>::empty());
    }
    while i < es.len()
        invariant
            0 <= i <= es@.len(),
            es == &n.children,
            off == start + list_bytes(es@.take(i as int)),
            start + list_bytes(es@) <= usize::MAX,
            n.kind == SyntaxKind::ObjectExpr || n.kind == SyntaxKind::IndexedObjectExpr,
            find_prop_from(es@, start as int, key@, 0) == find_prop_from(es@, start as int, key@, i as int),
        decreases es@.len() - i,
    {
        proof {
            lemma_list_bytes_step(es@, i as int);
        }
        match &es[i] {
            Element::Node(p) => {
                proof {
                    lemma_node_bytes(*p);
                }
                proof {
                    assert(child_offset(es@, start as int, i as int) == off);
                }
                match pair_with_key(p, off, key) {
                    Option::Some(found) => {
                        proof {
                            let pes = p.children@;
                            let colon = kind_index(pes, SyntaxKind::Colon, 0);
                            lemma_node_after_fits(pes, off as int, colon);
                        }
                        return Option::Some(found);
                    },
                    Option::None => {},
                }
            },
            Element::Token(_) => {},
        }
        let k = elem_len(&es[i]);
        off = off + k;
        i += 1;
    }
    Option::None
}

/// Where the part of the navigation `word` under the cursor at byte
/// `offset` is defined: for the first part, the local variable's name (as
/// `local_variable_definition` finds it); for a later one, the key of the
/// property in the object literals assigned to the variable and nested in
/// it.
pub fn local_nav_definition(word: &str, source: &str, offset: usize) -> (r: Option<SourceRange>)
    requires
        source@.len() + 4 <= usize::MAX,
        source@.len() < u32::MAX,
        dot_parts(word@).len() > 0 ==> offset <= source.spec_bytes().len() && is_char_boundary(
            source.spec_bytes(),
            offset as int,
        ),
    ensures
        exists|root: Node|
            tree_of(root, source@) && match nav_target(root, source@, word@, offset as int) {
                Option::Some((a, b)) => r == Option::Some(range_at(source@, a, b)),
                Option::None => r is None,
            },
{
    let w = str_chars(word);
    let root = crate::parser::parse(source);
    let wb = crate::cursor::byte_len(word);
    let r = match nav_in_tree(&root, source, &w, wb, offset) {
        Option::Some((a, b)) => Option::Some(range_of(source, a, b)),
        Option::None => Option::None,
    };
    proof {
        assert(tree_of(root, source@));
    }
    r
}

/// Where the part of the navigation `w` (of `wb` bytes) under the cursor at
/// byte `offset` is defined in `root`, a tree of `source` (see `nav_target`).
pub(crate) fn nav_in_tree(root: &Node, source: &str, w: &Vec<char>, wb: usize, offset: usize) -> (r: Option<(usize, usize)>)
    requires
        tree_of(*root, source@),
        wb == utf8_len(w@),
    ensures
        match r {
            Option::Some((a, b)) => nav_target(*root, source@, w@, offset as int) == Option::Some(
                (a as int, b as int),
            ),
            Option::None => nav_target(*root, source@, w@, offset as int) is None,
        },
{
    let parts = split_parts(w);
    let ghost views = char_views(parts@);
    if parts.len() == 0 {
        return Option::None;
    }
    let seg = segment_of(source, offset, w, wb);
    proof {
        assert(views[0] == parts@[0]@);
    }
    let found = find_local(root, source, &parts[0], offset);
    let d = match found {
        Option::Some(d) => d,
        Option::None => {
            return Option::None;
        },
    };
    if seg == 0 {
        return Option::Some((d.start, d.end));
    }
    proof {
        lemma_last_def_fits(Element::Node(*root), 0, views[0], offset as int);
        lemma_node_bytes(*root);
    }
    let _n = crate::cursor::byte_len(source);
    let mut cur: Option<(&Node, usize)> = d.value;
    let mut idx: usize = 1;
    while idx < parts.len()
        invariant
            1 <= idx <= parts@.len(),
            views == char_views(parts@),
            views == dot_parts(w@),
            seg > 0,
            seg == segment_index(source@, offset as int, w@),
            fits(val_v(cur), usize::MAX as int),
            nav_target(*root, source@, w@, offset as int) == nav_walk(val_v(cur), views, idx as int, seg as int),
        decreases parts@.len() - idx,
    {
        let (n, s) = match cur {
            Option::Some(v) => v,
            Option::None => {
                return Option::None;
            },
        };
        proof {
            assert(views[idx as int] == parts@[idx as int]@);
        }
        match object_prop_of(n, s, &parts[idx]) {
            Option::None => {
                return Option::None;
            },
            Option::Some((a, b, v)) => {
                if idx == seg {
                    return Option::Some((a, b));
                }
                cur = v;
            },
        }
        idx += 1;
    }
    Option::None
}

// ── Keys of object types ────────────────────────────────────────────────

/// The index of the child of `n` that is a type: the value of a `type`
/// declaration, the annotation of a typed assignment (`name: T`), or the
/// result type of an `extern` function (after `->`); -1 when there is none.
pub open spec fn type_child(n: Node) -> int {
    let es = n.children@;
    let sep = if n.kind == SyntaxKind::TypeDecl {
        kind_index(es, SyntaxKind::Eq, 0)
    } else if n.kind == SyntaxKind::AssignExpr {
        kind_index(es, SyntaxKind::Colon, 0)
    } else if n.kind == SyntaxKind::ExternDecl {
        kind_index(es, SyntaxKind::Arrow, 0)
    } else {
        -1
    };
    if 0 <= sep < es.len() {
        first_sig_from(es, sep + 1)
    } else {
        -1
    }
}

/// The span of the key of the pair `n` (starting at `start`) when the key is
/// a name spelled `name` and the pair starts at or before `limit`.
pub open spec fn pair_key(n: Node, start: int, name: Seq<char>, limit: int) -> Option<(int, int)> {
    let es = n.children@;
    let f = first_sig_from(es, 0);
    if n.kind == SyntaxKind::Pair && start <= limit && 0 <= f < es.len() && is_token_kind(
        es[f],
        SyntaxKind::Ident,
    ) && token_text(es[f]) == name {
        Option::Some(span_at(es, start, f))
    } else {
        Option::None
    }
}

/// The span of the last key `name` of an object type in the tree of `e`
/// (which starts at `start`; `ty` tells whether `e` stands in a type), among
/// the pairs that start at or before `limit`, in document order.
pub open spec fn last_tkey(e: Element, start: int, name: Seq<char>, limit: int, ty: bool) -> Option<(int, int)>
    decreases e, 1nat,
{
    match e {
        Element::Token(_) => Option::None,
        Element::Node(n) => match last_tkey_list(n.children@, start, name, limit, ty, type_child(n)) {
            Option::Some(d) => Option::Some(d),
            Option::None => if ty {
                pair_key(n, start, name, limit)
            } else {
                Option::None
            },
        },
    }
}

/// The last key `name` of an object type in the trees of `es` (which start
/// at `start`); the element at index `tc`, and all of them when `ty`, stand
/// in a type.
pub open spec fn last_tkey_list(es: Seq<Element>, start: int, name: Seq<char>, limit: int, ty: bool, tc: int) -> Option<(int, int)>
    decreases es, 0nat,
{
    if es.len() == 0 {
        Option::None
    } else {
        proof {
            assert(decreases_to!(es => es.drop_last()));
        }
        match last_tkey(es.last(), start + list_bytes(es.drop_last()), name, limit, ty || es.len() - 1 == tc) {
            Option::Some(d) => Option::Some(d),
            Option::None => last_tkey_list(es.drop_last(), start, name, limit, ty, tc),
        }
    }
}

/// The index of the type child of `n` (see `type_child`), or the number of
/// its children when there is none.
fn type_child_of(n: &Node) -> (r: usize)
    ensures
        r <= n.children@.len(),
        r < n.children@.len() ==> type_child(*n) == r,
        r == n.children@.len() ==> type_child(*n) == -1,
{
    let es = &n.children;
    let k = if n.kind == SyntaxKind::TypeDecl {
        SyntaxKind::Eq
    } else if n.kind == SyntaxKind::AssignExpr {
        SyntaxKind::Colon
    } else if n.kind == SyntaxKind::ExternDecl {
        SyntaxKind::Arrow
    } else {
        return es.len();
    };
    let sep = kind_idx(es, k);
    if sep >= es.len() {
        return es.len();
    }
    first_sig_idx(es, sep + 1)
}

/// The key of the pair `n` (see `pair_key`).
fn pair_key_of(n: &Node, start: usize, name: &Vec<char>, limit: usize) -> (r: Option<(usize, usize)>)
    requires
        start + list_bytes(n.children@) <= usize::MAX,
    ensures
        match r {
            Option::Some((a, b)) => pair_key(*n, start as int, name@, limit as int) == Option::Some(
                (a as int, b as int),
            ),
            Option::None => pair_key(*n, start as int, name@, limit as int) is None,
        },
{
    if n.kind != SyntaxKind::Pair || start > limit {
        return Option::None;
    }
    let es = &n.children;
    let f = first_sig_idx(es, 0);
    if f >= es.len() {
        return Option::None;
    }
    let is_ident = match &es[f] {
        Element::Token(t) => t.kind == SyntaxKind::Ident,
        Element::Node(_) => false,
    };
    if is_ident && token_is(es, f, name) {
        Option::Some(span_of_child(es, start, f))
    } else {
        Option::None
    }
}

/// The last key `name` of an object type in the tree of `nd` (see `last_tkey`).
fn last_tkey_of_node(nd: &Node, start: usize, name: &Vec<char>, limit: usize, ty: bool) -> (r: Option<(usize, usize)>)
    requires
        start + list_bytes(nd.children@) <= usize::MAX,
    ensures
        match r {
            Option::Some((a, b)) => last_tkey(Element::Node(*nd), start as int, name@, limit as int, ty)
                == Option::Some((a as int, b as int)),
            Option::None => last_tkey(Element::Node(*nd), start as int, name@, limit as int, ty) is None,
        },
    decreases *nd, 1nat,
{
    let es = &nd.children;
    let tc = type_child_of(nd);
    let ghost tcv = type_child(*nd);
    let mut best: Option<(usize, usize)> = Option::None;
    let mut off = start;
    let mut i: usize = 0;
    proof {
        assert(es@.take(0) =~= Seq::<Element>::empty());
    }
    while i < es.len()
        invariant
            0 <= i <= es@.len(),
            es == &nd.children,
            off == start + list_bytes(es@.take(i as int)),
            start + list_bytes(es@) <= usize::MAX,
            tc <= es@.len(),
            tc < es@.len() ==> tcv == tc,
            tc == es@.len() ==> tcv == -1,
            match best {
                Option::Some((a, b)) => last_tkey_list(es@.take(i as int), start as int, name@, limit as int, ty, tcv)
                    == Option::Some((a as int, b as int)),
                Option::None => last_tkey_list(es@.take(i as int), start as int, name@, limit as int, ty, tcv) is None,
            },
        decreases es@.len() - i,
    {
        proof {
            lemma_list_bytes_step(es@, i as int);
            assert(es@.take(i + 1).drop_last() =~= es@.take(i as int));
            assert(es@.take(i + 1).last() == es@[i as int]);
            assert(decreases_to!(*nd => nd.children));
            assert(decreases_to!(nd.children => nd.children@));
            assert(decreases_to!(nd.children@ => nd.children@[i as int]));
        }
        let child_ty = ty || i == tc;
        match last_tkey_of(&es[i], off, name, limit, child_ty) {
            Option::Some(d) => {
                best = Option::Some(d);
            },
            Option::None => {},
        }
        let k = elem_len(&es[i]);
        off = off + k;
        i += 1;
    }
    proof {
        assert(es@.take(es@.len() as int) =~= es@);
    }
    match best {
        Option::Some(d) => Option::Some(d),
        Option::None => if ty {
            pair_key_of(nd, start, name, limit)
        } else {
            Option::None
        },
    }
}

/// The last key `name` of an object type in the tree of `e` (see `last_tkey`).
fn last_tkey_of(e: &Element, start: usize, name: &Vec<char>, limit: usize, ty: bool) -> (r: Option<(usize, usize)>)
    requires
        start + elem_bytes(*e) <= usize::MAX,
    ensures
        match r {
            Option::Some((a, b)) => last_tkey(*e, start as int, name@, limit as int, ty) == Option::Some(
                (a as int, b as int),
            ),
            Option::None => last_tkey(*e, start as int, name@, limit as int, ty) is None,
        },
    decreases e, 0nat,
{
    match e {
        Element::Token(_) => Option::None,
        Element::Node(nd) => {
            proof {
                lemma_node_bytes(*nd);
            }
            last_tkey_of_node(nd, start, name, limit, ty)
        },
    }
}

/// The span of the last key `name` of an object type in `root`, a tree of
/// `source`, among the pairs that start at or before `offset`.
pub(crate) fn type_key_span_in(root: &Node, source: &str, name: &Vec<char>, offset: usize) -> (r: Option<(usize, usize)>)
    requires
        tree_of(*root, source@),
    ensures
        match r {
            Option::Some((a, b)) => last_tkey(Element::Node(*root), 0, name@, offset as int, false)
                == Option::Some((a as int, b as int)),
            Option::None => last_tkey(Element::Node(*root), 0, name@, offset as int, false) is None,
        },
{
    let _n = crate::cursor::byte_len(source);
    last_tkey_of_node(root, 0, name, offset, false)
}

/// What `local_type_property_definition` gives on the tree `root` of
/// `source`: the range of the last key `name` of an object type among the
/// pairs that start at or before `offset`.
pub open spec fn type_key_range(root: Node, source: Seq<char>, name: Seq<char>, offset: int) -> Option<SourceRange> {
    match last_tkey(Element::Node(root), 0, name, offset, false) {
        Option::Some((a, b)) => Option::Some(range_at(source, a, b)),
        Option::None => Option::None,
    }
}

/// Where the key `word` of an object type is declared: the name of the
/// last pair `word: T` inside a type (a `type` declaration's value, an
/// annotation `name: T`, or an `extern` function's result type) among the
/// pairs of the document that start at or before byte `offset`.
pub fn local_type_property_definition(word: &str, source: &str, offset: usize) -> (r: Option<SourceRange>)
    requires
        source@.len() + 4 <= usize::MAX,
        source@.len() < u32::MAX,
    ensures
        exists|root: Node| tree_of(root, source@) && r == type_key_range(root, source@, word@, offset as int),
{
    let root = crate::parser::parse(source);
    let name = str_chars(word);
    match type_key_span_in(&root, source, &name, offset) {
        Option::Some((a, b)) => Option::Some(range_of(source, a, b)),
        Option::None => Option::None,
    }
}

// ── Type positions ──────────────────────────────────────────────────────

/// Whether byte `offset` lies inside a type in the tree of `e` (which starts
/// at `start`; `ty` tells whether `e` stands in a type).
pub open spec fn in_type(e: Element, start: int, offset: int, ty: bool) -> bool
    decreases e, 1nat,
{
    if ty {
        start <= offset < start + elem_bytes(e)
    } else {
        match e {
            Element::Token(_) => false,
            Element::Node(n) => in_type_list(n.children@, start, offset, type_child(n)),
        }
    }
}

/// Whether byte `offset` lies inside a type in the trees of `es` (which
/// start at `start`), where the element at index `tc` is a type.
pub open spec fn in_type_list(es: Seq<Element>, start: int, offset: int, tc: int) -> bool
    decreases es, 0nat,
{
    if es.len() == 0 {
        false
    } else {
        proof {
            assert(decreases_to!(es => es.drop_last()));
        }
        in_type(es.last(), start + list_bytes(es.drop_last()), offset, es.len() - 1 == tc)
            || in_type_list(es.drop_last(), start, offset, tc)
    }
}

/// Whether byte `offset` lies inside a type in the tree of `nd` (see `in_type`).
fn in_type_of_node(nd: &Node, start: usize, offset: usize) -> (r: bool)
    requires
        start + list_bytes(nd.children@) <= usize::MAX,
    ensures
        r == in_type(Element::Node(*nd), start as int, offset as int, false),
    decreases *nd, 1nat,
{
    let es = &nd.children;
    let tc = type_child_of(nd);
    let ghost tcv = type_child(*nd);
    let mut found = false;
    let mut off = start;
    let mut i: usize = 0;
    proof {
        assert(es@.take(0) =~= Seq::<Element>::empty());
    }
    while i < es.len()
        invariant
            0 <= i <= es@.len(),
            es == &nd.children,
            off == start + list_bytes(es@.take(i as int)),
            start + list_bytes(es@) <= usize::MAX,
            tc <= es@.len(),
            tc < es@.len() ==> tcv == tc,
            tc == es@.len() ==> tcv == -1,
            found == in_type_list(es@.take(i as int), start as int, offset as int, tcv),
        decreases es@.len() - i,
    {
        proof {
            lemma_list_bytes_step(es@, i as int);
            assert(es@.take(i + 1).drop_last() =~= es@.take(i as int));
            assert(es@.take(i + 1).last() == es@[i as int]);
            assert(decreases_to!(*nd => nd.children));
            assert(decreases_to!(nd.children => nd.children@));
            assert(decreases_to!(nd.children@ => nd.children@[i as int]));
        }
        if in_type_of(&es[i], off, offset, i == tc) {
            found = true;
        }
        let k = elem_len(&es[i]);
        off = off + k;
        i += 1;
    }
    proof {
        assert(es@.take(es@.len() as int) =~= es@);
    }
    found
}

/// Whether byte `offset` lies inside a type in the tree of `e` (see `in_type`).
fn in_type_of(e: &Element, start: usize, offset: usize, ty: bool) -> (r: bool)
    requires
        start + elem_bytes(*e) <= usize::MAX,
    ensures
        r == in_type(*e, start as int, offset as int, ty),
    decreases e, 0nat,
{
    if ty {
        let n = elem_len(e);
        return start <= offset && offset < start + n;
    }
    match e {
        Element::Token(_) => false,
        Element::Node(nd) => {
            proof {
                lemma_node_bytes(*nd);
            }
            in_type_of_node(nd, start, offset)
        },
    }
}

/// Whether byte `offset` of `source` (whose tree is `root`) lies inside a
/// type: a `type` declaration's value, an annotation `name: T`, or an
/// `extern` function's result type.
pub(crate) fn in_type_at(root: &Node, source: &str, offset: usize) -> (r: bool)
    requires
        tree_of(*root, source@),
    ensures
        r == in_type(Element::Node(*root), 0, offset as int, false),
{
    let _n = crate::cursor::byte_len(source);
    in_type_of_node(root, 0, offset)
}

} // verus!
