//! The source formatter.
//!
//! It walks the concrete syntax tree and writes every construct back out,
//! normalizing horizontal whitespace and indentation (two spaces per level)
//! while keeping the line structure of the source: it never splits or joins
//! lines, and collapses runs of blank lines to one. Objects lose their
//! commas, and the output always ends with exactly one newline.
//!
//! What the formatter writes is stated exactly by the layout rules of
//! `crate::layout` (`format_v`); whitespace aside, it is what `ink_elem`
//! lists: each construct keeps the text of the children listed there.

use vstd::prelude::*;
use crate::lexer::{is_ws_char, slice_chars};
use crate::parser::parse;
use crate::layout::{
    FState, pad, s_start, s_emit, s_space, s_newline, s_more, s_less, trim_nl, breaks_of, s_breaks,
    tok_is, space_if, f_child, f_walk, has_do, f_lines, f_binary, f_unary, f_assign, f_spaced, f_call,
    f_compound, f_tight, f_pair, f_iter, f_block_kw, f_else, ml_token, f_multiline, f_array_items,
    f_array, f_object_items, f_object, f_comp_items, f_comprehension, start_state, format_v,
};
use crate::text::{
    char_width, chars_to_string, ink, lemma_ink_all_ws, lemma_utf8_len_add, utf8_len, utf8_width,
};
use crate::syntax::{
    Element, Node, SyntaxKind, concat_texts, is_trivia_kind, leaves, leaves_all,
    lemma_concat_texts_append, lemma_leaves_all_push, lemma_leaves_node, lemma_leaves_token,
};

verus! {

broadcast use crate::text::lemma_ink_add;

/// A construct is laid out over several lines when its source text spans
/// lines or is longer than 120 bytes.
pub open spec fn is_multiline_text(s: Seq<char>) -> bool {
    s.contains('\n') || utf8_len(s) > 120
}

/// The source text under a node.
pub open spec fn node_text(n: Node) -> Seq<char> {
    concat_texts(leaves_all(n.children@))
}

/// The kind of an element.
pub open spec fn elem_kind(e: Element) -> SyntaxKind {
    match e {
        Element::Token(t) => t.kind,
        Element::Node(n) => n.kind,
    }
}

/// Whether an element is a trivia token (whitespace or comment).
pub open spec fn is_trivia_elem(e: Element) -> bool {
    e matches Element::Token(t) && is_trivia_kind(t.kind)
}

pub open spec fn is_bracket_kind(k: SyntaxKind) -> bool {
    k == SyntaxKind::LBracket || k == SyntaxKind::RBracket || k == SyntaxKind::LBrace || k
        == SyntaxKind::RBrace
}

/// Whether an element is a whitespace token; the formatter writes line
/// breaks of its own in place of those.
pub open spec fn is_ws_elem(e: Element) -> bool {
    e matches Element::Token(t) && t.kind == SyntaxKind::Whitespace
}

/// Whether an element is a comma token.
pub open spec fn is_comma_elem(e: Element) -> bool {
    e matches Element::Token(t) && t.kind == SyntaxKind::Comma
}

/// Whether any of `es` is a comma token.
pub open spec fn has_comma(es: Seq<Element>) -> bool {
    exists|i: int| 0 <= i < es.len() && is_comma_elem(#[trigger] es[i])
}

/// Which children a construct writes out (whitespace aside), by mode:
/// 0 all of them (statement lists and block constructs, comments included);
/// 1 the significant ones (expressions: comments inside them are dropped);
/// 2 the significant ones but commas (iteration bindings);
/// 3 the significant ones but brackets and commas (single-line arrays);
/// 4 the pairs (single-line objects);
/// 5 all but commas and `#` (multi-line collections);
/// 6 the significant ones but brackets (single-line comprehensions);
/// 7 all but commas (multi-line comprehensions).
pub open spec fn keeps(mode: u8, e: Element) -> bool {
    let sig = !is_trivia_elem(e);
    let k = elem_kind(e);
    if mode == 0 {
        !is_ws_elem(e)
    } else if mode == 1 {
        sig
    } else if mode == 2 {
        sig && k != SyntaxKind::Comma
    } else if mode == 3 {
        sig && !is_bracket_kind(k) && k != SyntaxKind::Comma && k != SyntaxKind::Hash
    } else if mode == 4 {
        e is Node && (k == SyntaxKind::Pair || k == SyntaxKind::SpreadExpr)
    } else if mode == 5 {
        !is_ws_elem(e) && k != SyntaxKind::Comma && k != SyntaxKind::Hash
    } else if mode == 6 {
        sig && !is_bracket_kind(k)
    } else {
        !is_ws_elem(e) && k != SyntaxKind::Comma
    }
}

/// Kinds laid out as a list of statements, one per source line.
pub open spec fn is_lines_kind(k: SyntaxKind) -> bool {
    k == SyntaxKind::Root || k == SyntaxKind::Block
}

/// Kinds of block constructs (`when`/`unless`, `for`, `while`).
pub open spec fn is_block_kw_kind(k: SyntaxKind) -> bool {
    k == SyntaxKind::ConditionalExpr || k == SyntaxKind::ForExpr || k == SyntaxKind::WhileExpr
}

/// Kinds written as their significant children with normalized spacing.
pub open spec fn is_spaced_kind(k: SyntaxKind) -> bool {
    k == SyntaxKind::BinaryExpr || k == SyntaxKind::RangeExpr || k == SyntaxKind::UnaryExpr || k
        == SyntaxKind::AssignExpr || k == SyntaxKind::ReturnExpr || k == SyntaxKind::TypeDecl || k
        == SyntaxKind::ExternDecl || k == SyntaxKind::CallExpr || k == SyntaxKind::NavExpr || k
        == SyntaxKind::GroupExpr || k == SyntaxKind::ElseBranch || k == SyntaxKind::Pair || k
        == SyntaxKind::SpreadExpr || k == SyntaxKind::CompoundExpr
}

/// What the formatter writes of `e`, whitespace aside.
pub open spec fn ink_elem(e: Element) -> Seq<char>
    decreases e, 1nat,
{
    match e {
        Element::Token(t) => ink(t.text@),
        Element::Node(n) => {
            let ml = is_multiline_text(node_text(n));
            let k = n.kind;
            if k == SyntaxKind::ArrayExpr || k == SyntaxKind::ObjectExpr {
                if ml {
                    ink_list(n.children@, 5)
                } else if k == SyntaxKind::ArrayExpr {
                    seq!['['] + ink_join(n.children@, 3, array_sep(n.children@)) + seq![']']
                } else {
                    seq!['{'] + ink_list(n.children@, 4) + seq!['}']
                }
            } else if k == SyntaxKind::ArrayComprehension || k == SyntaxKind::ObjectComprehension {
                if ml {
                    ink_list(n.children@, 7)
                } else if k == SyntaxKind::ArrayComprehension {
                    seq!['['] + ink_list(n.children@, 6) + seq![']']
                } else {
                    seq!['{'] + ink_list(n.children@, 6) + seq!['}']
                }
            } else if k == SyntaxKind::IterBinding {
                ink_list(n.children@, 2)
            } else if is_lines_kind(k) || is_block_kw_kind(k) {
                ink_list(n.children@, 0)
            } else if is_spaced_kind(k) {
                ink_list(n.children@, 1)
            } else {
                ink(node_text(n))
            }
        },
    }
}

/// What the formatter writes of the children `es` that `mode` keeps.
pub open spec fn ink_list(es: Seq<Element>, mode: u8) -> Seq<char>
    decreases es, 0nat,
{
    if es.len() == 0 {
        Seq::empty()
    } else {
        proof {
            assert(decreases_to!(es => es.drop_last()));
        }
        let rest = ink_list(es.drop_last(), mode);
        if keeps(mode, es.last()) {
            rest + ink_elem(es.last())
        } else {
            rest
        }
    }
}

/// The number of children of `es` that `mode` keeps.
pub open spec fn kept_count(es: Seq<Element>, mode: u8) -> nat
    decreases es.len(),
{
    if es.len() == 0 {
        0
    } else {
        kept_count(es.drop_last(), mode) + if keeps(mode, es.last()) {
            1nat
        } else {
            0nat
        }
    }
}

/// The ink of the separator between the items of a single-line array:
/// a comma when the source separated them with commas.
pub open spec fn array_sep(es: Seq<Element>) -> Seq<char> {
    if has_comma(es) {
        seq![',']
    } else {
        Seq::empty()
    }
}

/// Like `ink_list`, with `sep` between consecutive kept children.
pub open spec fn ink_join(es: Seq<Element>, mode: u8, sep: Seq<char>) -> Seq<char>
    decreases es, 0nat,
{
    if es.len() == 0 {
        Seq::empty()
    } else {
        proof {
            assert(decreases_to!(es => es.drop_last()));
        }
        let rest = ink_join(es.drop_last(), mode, sep);
        if keeps(mode, es.last()) {
            if kept_count(es.drop_last(), mode) > 0 {
                rest + sep + ink_elem(es.last())
            } else {
                rest + ink_elem(es.last())
            }
        } else {
            rest
        }
    }
}

/// What the formatter writes of a node.
pub open spec fn ink_node(n: Node) -> Seq<char> {
    ink_elem(Element::Node(n))
}

proof fn lemma_ink_list_step(es: Seq<Element>, mode: u8, i: int)
    requires
        0 <= i < es.len(),
    ensures
        ink_list(es.take(i + 1), mode) == ink_list(es.take(i), mode) + (if keeps(mode, es[i]) {
            ink_elem(es[i])
        } else {
            Seq::empty()
        }),
{
    assert(es.take(i + 1).drop_last() =~= es.take(i));
    assert(es.take(i + 1).last() == es[i]);
    if !keeps(mode, es[i]) {
        assert(ink_list(es.take(i), mode) + Seq::<char>::empty() =~= ink_list(es.take(i), mode));
    }
}

proof fn lemma_ink_join_step(es: Seq<Element>, mode: u8, sep: Seq<char>, i: int)
    requires
        0 <= i < es.len(),
    ensures
        ink_join(es.take(i + 1), mode, sep) == (if keeps(mode, es[i]) {
            if kept_count(es.take(i), mode) > 0 {
                ink_join(es.take(i), mode, sep) + sep + ink_elem(es[i])
            } else {
                ink_join(es.take(i), mode, sep) + ink_elem(es[i])
            }
        } else {
            ink_join(es.take(i), mode, sep)
        }),
        kept_count(es.take(i + 1), mode) == kept_count(es.take(i), mode) + (if keeps(mode, es[i]) {
            1int
        } else {
            0int
        }),
{
    assert(es.take(i + 1).drop_last() =~= es.take(i));
    assert(es.take(i + 1).last() == es[i]);
}

proof fn lemma_ink_list_start(es: Seq<Element>, mode: u8)
    ensures
        ink_list(es.take(0), mode) == Seq::<char>::empty(),
{
    assert(es.take(0).len() == 0);
}

proof fn lemma_take_all<A>(es: Seq<A>)
    ensures
        es.take(es.len() as int) == es,
{
    assert(es.take(es.len() as int) =~= es);
}

/// The ink of a node, unfolded.
proof fn lemma_ink_node(n: Node)
    ensures
        ink_node(n) == (if n.kind == SyntaxKind::ArrayExpr || n.kind == SyntaxKind::ObjectExpr {
            if is_multiline_text(node_text(n)) {
                ink_list(n.children@, 5)
            } else if n.kind == SyntaxKind::ArrayExpr {
                seq!['['] + ink_join(n.children@, 3, array_sep(n.children@)) + seq![']']
            } else {
                seq!['{'] + ink_list(n.children@, 4) + seq!['}']
            }
        } else if n.kind == SyntaxKind::ArrayComprehension || n.kind
            == SyntaxKind::ObjectComprehension {
            if is_multiline_text(node_text(n)) {
                ink_list(n.children@, 7)
            } else if n.kind == SyntaxKind::ArrayComprehension {
                seq!['['] + ink_list(n.children@, 6) + seq![']']
            } else {
                seq!['{'] + ink_list(n.children@, 6) + seq!['}']
            }
        } else if n.kind == SyntaxKind::IterBinding {
            ink_list(n.children@, 2)
        } else if is_lines_kind(n.kind) || is_block_kw_kind(n.kind) {
            ink_list(n.children@, 0)
        } else if is_spaced_kind(n.kind) {
            ink_list(n.children@, 1)
        } else {
            ink(node_text(n))
        }),
{
    let e = Element::Node(n);
    assert(e matches Element::Node(m) && m == n);
}

/// Each child of a node is smaller than the node.
pub proof fn lemma_child_decreases(n: Node, i: int)
    requires
        0 <= i < n.children@.len(),
    ensures
        decreases_to!(n => n.children@[i]),
{
    assert(decreases_to!(n => n.children));
    assert(decreases_to!(n.children => n.children@));
    assert(decreases_to!(n.children@ => n.children@[i]));
}

// ── Measuring source text ─────────────────────────────────────────────

/// `n`, or 121 when larger: byte counts are only compared with 120.
pub open spec fn capped(n: int) -> int {
    if n > 121 {
        121
    } else {
        n
    }
}

proof fn lemma_contains_add(a: Seq<char>, b: Seq<char>, c: char)
    ensures
        (a + b).contains(c) == (a.contains(c) || b.contains(c)),
{
    if a.contains(c) {
        let i = choose|i: int| 0 <= i < a.len() && a[i] == c;
        assert((a + b)[i] == c);
    }
    if b.contains(c) {
        let i = choose|i: int| 0 <= i < b.len() && b[i] == c;
        assert((a + b)[a.len() + i] == c);
    }
    if (a + b).contains(c) {
        let i = choose|i: int| 0 <= i < (a + b).len() && (a + b)[i] == c;
        if i < a.len() {
            assert(a[i] == c);
        } else {
            assert(b[i - a.len()] == c);
        }
    }
}

/// Adds the text under `e` to a running line-break flag and byte count.
#[verifier::loop_isolation(false)]
fn scan_text(e: &Element, nl: &mut bool, bytes: &mut usize)
    requires
        *old(bytes) <= 121,
    ensures
        *final(nl) == (*old(nl) || concat_texts(leaves(*e)).contains('\n')),
        *final(bytes) == capped(*old(bytes) + utf8_len(concat_texts(leaves(*e)))),
    decreases e,
{
    match e {
        Element::Token(t) => {
            proof {
                lemma_leaves_token(*t);
                assert(concat_texts(seq![t@]) =~= t.text@) by {
                    assert(seq![t@].drop_last() =~= Seq::<(SyntaxKind, Seq<char>)>::empty());
                    assert(concat_texts(Seq::<(SyntaxKind, Seq<char>)>::empty()) == Seq::<
                        char,
                    >::empty());
                    assert(Seq::<char>::empty() + t.text@ =~= t.text@);
                }
            }
            let ghost nl0 = *nl;
            let ghost b0 = *bytes as int;
            let mut i: usize = 0;
            while i < t.text.len()
                invariant
                    0 <= i <= t.text@.len(),
                    *nl == (nl0 || t.text@.take(i as int).contains('\n')),
                    *bytes == capped(b0 + utf8_len(t.text@.take(i as int))),
                    *bytes <= 121,
                decreases t.text@.len() - i,
            {
                let c = t.text[i];
                proof {
                    assert(t.text@.take(i + 1) =~= t.text@.take(i as int) + seq![c]);
                    lemma_contains_add(t.text@.take(i as int), seq![c], c);
                    lemma_contains_add(t.text@.take(i as int), seq![c], '\n');
                    lemma_utf8_len_add(t.text@.take(i as int), seq![c]);
                    assert(seq![c].drop_last() =~= Seq::<char>::empty());
                    assert(utf8_len(Seq::<char>::empty()) == 0);
                    assert(utf8_len(seq![c]) == utf8_width(c));
                    if c != '\n' {
                        assert(!seq![c].contains('\n'));
                    } else {
                        assert(seq![c][0] == '\n');
                    }
                }
                if c == '\n' {
                    *nl = true;
                }
                let w = char_width(c);
                if *bytes + w > 121 {
                    *bytes = 121;
                } else {
                    *bytes = *bytes + w;
                }
                i += 1;
            }
            proof {
                lemma_take_all(t.text@);
            }
        },
        Element::Node(n) => {
            proof {
                lemma_leaves_node(*n);
            }
            let ghost nl0 = *nl;
            let ghost b0 = *bytes as int;
            let mut i: usize = 0;
            proof {
                assert(n.children@.take(0) =~= Seq::<Element>::empty());
                assert(concat_texts(leaves_all(n.children@.take(0))) =~= Seq::<char>::empty());
                assert(!Seq::<char>::empty().contains('\n'));
            }
            while i < n.children.len()
                invariant
                    0 <= i <= n.children@.len(),
                    *nl == (nl0 || concat_texts(leaves_all(n.children@.take(i as int))).contains(
                        '\n',
                    )),
                    *bytes == capped(b0 + utf8_len(concat_texts(leaves_all(n.children@.take(i as int))))),
                    *bytes <= 121,
                decreases n.children@.len() - i,
            {
                let ghost prev = concat_texts(leaves_all(n.children@.take(i as int)));
                let ghost cur = concat_texts(leaves(n.children@[i as int]));
                proof {
                    lemma_child_decreases(*n, i as int);
                    assert(*e == Element::Node(*n));
                    assert(decreases_to!(*e => *n));
                    assert(n.children@.take(i + 1) =~= n.children@.take(i as int).push(n.children@[i as int]));
                    lemma_leaves_all_push(n.children@.take(i as int), n.children@[i as int]);
                    lemma_concat_texts_append(leaves_all(n.children@.take(i as int)), leaves(n.children@[i as int]));
                    lemma_contains_add(prev, cur, '\n');
                    lemma_utf8_len_add(prev, cur);
                }
                scan_text(&n.children[i], nl, bytes);
                i += 1;
            }
            proof {
                lemma_take_all(n.children@);
            }
        },
    }
}

/// Whether a node is laid out over several lines.
fn is_multiline(n: &Node) -> (r: bool)
    ensures
        r == is_multiline_text(node_text(*n)),
{
    let mut nl = false;
    let mut bytes: usize = 0;
    let mut i: usize = 0;
    proof {
        assert(n.children@.take(0) =~= Seq::<Element>::empty());
        assert(concat_texts(leaves_all(n.children@.take(0))) =~= Seq::<char>::empty());
        assert(!Seq::<char>::empty().contains('\n'));
    }
    while i < n.children.len()
        invariant
            0 <= i <= n.children@.len(),
            nl == concat_texts(leaves_all(n.children@.take(i as int))).contains('\n'),
            bytes == capped(utf8_len(concat_texts(leaves_all(n.children@.take(i as int)))) as int),
            bytes <= 121,
        decreases n.children@.len() - i,
    {
        let ghost prev = concat_texts(leaves_all(n.children@.take(i as int)));
        let ghost cur = concat_texts(leaves(n.children@[i as int]));
        proof {
            assert(n.children@.take(i + 1) =~= n.children@.take(i as int).push(n.children@[i as int]));
            lemma_leaves_all_push(n.children@.take(i as int), n.children@[i as int]);
            lemma_concat_texts_append(leaves_all(n.children@.take(i as int)), leaves(n.children@[i as int]));
            lemma_contains_add(prev, cur, '\n');
            lemma_utf8_len_add(prev, cur);
        }
        scan_text(&n.children[i], &mut nl, &mut bytes);
        i += 1;
    }
    proof {
        lemma_take_all(n.children@);
    }
    nl || bytes > 120
}

proof fn lemma_add_assoc(a: Seq<char>, b: Seq<char>, c: Seq<char>)
    ensures
        (a + b) + c == a + (b + c),
{
    assert((a + b) + c =~= a + (b + c));
}

proof fn lemma_add_empty(a: Seq<char>)
    ensures
        a + Seq::<char>::empty() == a,
{
    assert(a + Seq::<char>::empty() =~= a);
}

/// Trimming the trailing line breaks of `t` leaves its first `end`
/// characters, when those after are line breaks and the last before is not.
proof fn lemma_trim_nl(t: Seq<char>, end: int)
    requires
        0 <= end <= t.len(),
        forall|j: int| end <= j < t.len() ==> t[j] == '\n',
        end == 0 || t[end - 1] != '\n',
    ensures
        trim_nl(t) == t.take(end),
    decreases t.len(),
{
    if t.len() > end {
        lemma_trim_nl(t.drop_last(), end);
        assert(t.drop_last().take(end) =~= t.take(end));
    } else {
        assert(t.take(end) =~= t);
    }
}

/// Writing two texts one after the other writes their concatenation.
proof fn lemma_emit_join(s: FState, a: Seq<char>, b: Seq<char>)
    ensures
        s_emit(s_emit(s, a), b) == s_emit(s, a + b),
{
    if a.len() == 0 {
        assert(a + b =~= b);
    } else if b.len() == 0 {
        assert(a + b =~= a);
    } else {
        assert(s_start(s).out + a + b =~= s_start(s).out + (a + b));
    }
}

/// A single character's ink.
proof fn lemma_ink_char(c: char)
    ensures
        ink(seq![c]) == (if is_ws_char(c) {
            Seq::<char>::empty()
        } else {
            seq![c]
        }),
{
    assert(seq![c].drop_last() =~= Seq::<char>::empty());
    assert(ink(Seq::<char>::empty()) == Seq::<char>::empty());
    assert(Seq::<char>::empty().push(c) =~= seq![c]);
}

/// A grandchild reached through a child element is smaller than the node.
pub proof fn lemma_grandchild_decreases(node: Node, i: int, n: Node)
    requires
        0 <= i < node.children@.len(),
        node.children@[i] == Element::Node(n),
    ensures
        decreases_to!(node => n),
{
    lemma_child_decreases(node, i);
    let e = node.children@[i];
    assert(e->Node_0 == n);
    assert(decreases_to!(e => e->Node_0));
}

// ── Small queries on children ─────────────────────────────────────────

/// The kind of an element.
fn kind_of(e: &Element) -> (r: SyntaxKind)
    ensures
        r == elem_kind(*e),
{
    match e {
        Element::Token(t) => t.kind,
        Element::Node(n) => n.kind,
    }
}

/// Whether an element is a token of kind `k`.
fn is_token_of(e: &Element, k: SyntaxKind) -> (r: bool)
    ensures
        r == (e matches Element::Token(t) && t.kind == k),
{
    match e {
        Element::Token(t) => t.kind == k,
        Element::Node(_) => false,
    }
}

/// Whether `mode` keeps `e` (see `keeps`).
fn keeps_exec(mode: u8, e: &Element) -> (r: bool)
    ensures
        r == keeps(mode, *e),
{
    let sig = match e {
        Element::Token(t) => !t.kind.is_trivia(),
        Element::Node(_) => true,
    };
    let ws = is_token_of(e, SyntaxKind::Whitespace);
    let k = kind_of(e);
    let bracket = k == SyntaxKind::LBracket || k == SyntaxKind::RBracket || k == SyntaxKind::LBrace
        || k == SyntaxKind::RBrace;
    if mode == 0 {
        !ws
    } else if mode == 1 {
        sig
    } else if mode == 2 {
        sig && k != SyntaxKind::Comma
    } else if mode == 3 {
        sig && !bracket && k != SyntaxKind::Comma && k != SyntaxKind::Hash
    } else if mode == 4 {
        match e {
            Element::Node(n) => n.kind == SyntaxKind::Pair || n.kind == SyntaxKind::SpreadExpr,
            Element::Token(_) => false,
        }
    } else if mode == 5 {
        !ws && k != SyntaxKind::Comma && k != SyntaxKind::Hash
    } else if mode == 6 {
        sig && !bracket
    } else {
        !ws && k != SyntaxKind::Comma
    }
}

/// Whether `mode` keeps any child of `node`.
fn keeps_any(node: &Node, mode: u8) -> (r: bool)
    ensures
        r == (kept_count(node.children@, mode) > 0),
{
    let mut i: usize = 0;
    let mut any = false;
    proof {
        assert(node.children@.take(0) =~= Seq::<Element>::empty());
    }
    while i < node.children.len()
        invariant
            0 <= i <= node.children@.len(),
            any == (kept_count(node.children@.take(i as int), mode) > 0),
        decreases node.children@.len() - i,
    {
        proof {
            lemma_ink_join_step(node.children@, mode, Seq::empty(), i as int);
        }
        if keeps_exec(mode, &node.children[i]) {
            any = true;
        }
        i += 1;
    }
    proof {
        lemma_take_all(node.children@);
    }
    any
}

/// Whether any child of `node` is a comma token.
fn has_comma_child(node: &Node) -> (r: bool)
    ensures
        r == has_comma(node.children@),
{
    let mut i: usize = 0;
    while i < node.children.len()
        invariant
            0 <= i <= node.children@.len(),
            forall|j: int| 0 <= j < i ==> !is_comma_elem(#[trigger] node.children@[j]),
        decreases node.children@.len() - i,
    {
        if is_token_of(&node.children[i], SyntaxKind::Comma) {
            return true;
        }
        i += 1;
    }
    false
}

/// Whether `text` holds a line break.
fn contains_newline(text: &Vec<char>) -> (r: bool)
    ensures
        r == text@.contains('\n'),
{
    let mut i: usize = 0;
    while i < text.len()
        invariant
            0 <= i <= text@.len(),
            forall|j: int| 0 <= j < i ==> text@[j] != '\n',
        decreases text@.len() - i,
    {
        if text[i] == '\n' {
            return true;
        }
        i += 1;
    }
    false
}

/// The number of line breaks in `s`.
pub open spec fn newline_count(s: Seq<char>) -> nat
    decreases s.len(),
{
    if s.len() == 0 {
        0
    } else {
        newline_count(s.drop_last()) + if s.last() == '\n' {
            1nat
        } else {
            0nat
        }
    }
}

/// `n` line breaks.
pub open spec fn line_breaks(n: nat) -> Seq<char> {
    Seq::new(n, |i: int| '\n')
}

/// A prefix has no more line breaks than the whole.
proof fn lemma_newline_count_mono(s: Seq<char>, i: int)
    requires
        0 <= i <= s.len(),
    ensures
        newline_count(s.take(i)) <= newline_count(s),
    decreases s.len() - i,
{
    if i < s.len() {
        assert(s.take(i + 1).drop_last() =~= s.take(i));
        lemma_newline_count_mono(s, i + 1);
    } else {
        assert(s.take(i) =~= s);
    }
}

/// Whether `e` is a token whose text holds a line break.
pub open spec fn newline_token(e: Element) -> bool {
    e matches Element::Token(t) && t.text@.contains('\n')
}

/// Whether the element spans lines: a token holding a line break, or a
/// node whose text is multi-line (see `is_multiline_text`).
pub open spec fn spans_lines(e: Element) -> bool {
    match e {
        Element::Token(t) => t.text@.contains('\n'),
        Element::Node(n) => is_multiline_text(node_text(n)),
    }
}

/// Scanning the children `es` from `i` (`saw_do`: whether a `do` was
/// passed): whether something between `do` and `end` spans lines.
pub open spec fn body_ml_from(es: Seq<Element>, i: int, saw_do: bool) -> bool
    decreases es.len() - i,
{
    if i < 0 || i >= es.len() {
        false
    } else {
        let k = elem_kind(es[i]);
        if k == SyntaxKind::KwDo {
            body_ml_from(es, i + 1, true)
        } else if saw_do && k == SyntaxKind::KwEnd {
            false
        } else if saw_do && spans_lines(es[i]) {
            true
        } else {
            body_ml_from(es, i + 1, saw_do)
        }
    }
}

/// Whether a block keyword (`do`, `else`, `when`, `unless`) starts a run.
pub open spec fn block_kw(k: SyntaxKind) -> bool {
    k == SyntaxKind::KwDo || k == SyntaxKind::KwElse || k == SyntaxKind::KwWhen || k
        == SyntaxKind::KwUnless
}

/// Scanning the children `es` from `i` (`saw_kw`: whether a block keyword
/// was passed): after a keyword, the first block node decides by whether it
/// is multi-line, and a token holding a line break before it says yes.
pub open spec fn around_from(es: Seq<Element>, i: int, saw_kw: bool) -> bool
    decreases es.len() - i,
{
    if i < 0 || i >= es.len() {
        false
    } else {
        let k = elem_kind(es[i]);
        if block_kw(k) {
            around_from(es, i + 1, true)
        } else if saw_kw {
            match es[i] {
                Element::Node(n) => if n.kind == SyntaxKind::Block {
                    is_multiline_text(node_text(n))
                } else {
                    around_from(es, i + 1, saw_kw)
                },
                Element::Token(t) => if t.text@.contains('\n') {
                    true
                } else {
                    around_from(es, i + 1, saw_kw)
                },
            }
        } else {
            around_from(es, i + 1, saw_kw)
        }
    }
}

/// Whether the child after the `i`-th is a token holding a line break.
fn next_has_newline(node: &Node, i: usize) -> (r: bool)
    ensures
        r == (i + 1 < node.children@.len() && newline_token(node.children@[i + 1])),
{
    if i < node.children.len() && i + 1 < node.children.len() {
        match &node.children[i + 1] {
            Element::Token(t) => contains_newline(&t.text),
            Element::Node(_) => false,
        }
    } else {
        false
    }
}

/// Whether the body of a block construct (between `do` and `end`) spans lines.
fn body_multiline(node: &Node) -> (r: bool)
    ensures
        r == body_ml_from(node.children@, 0, false),
{
    let mut saw_do = false;
    let mut i: usize = 0;
    while i < node.children.len()
        invariant
            0 <= i <= node.children@.len(),
            body_ml_from(node.children@, 0, false) == body_ml_from(node.children@, i as int, saw_do),
        decreases node.children@.len() - i,
    {
        let c = &node.children[i];
        let k = kind_of(c);
        i += 1;
        if k == SyntaxKind::KwDo {
            saw_do = true;
        } else if saw_do && k == SyntaxKind::KwEnd {
            return false;
        } else if saw_do {
            match c {
                Element::Token(t) => {
                    if contains_newline(&t.text) {
                        return true;
                    }
                },
                Element::Node(n) => {
                    if is_multiline(n) {
                        return true;
                    }
                },
            }
        }
    }
    false
}

/// Whether an `else` branch puts its block on lines of its own: a line
/// break after its last keyword, or a multi-line block.
fn newlines_around_block(node: &Node) -> (r: bool)
    ensures
        r == around_from(node.children@, 0, false),
{
    let mut saw_kw = false;
    let mut i: usize = 0;
    while i < node.children.len()
        invariant
            0 <= i <= node.children@.len(),
            around_from(node.children@, 0, false) == around_from(node.children@, i as int, saw_kw),
        decreases node.children@.len() - i,
    {
        let c = &node.children[i];
        let k = kind_of(c);
        i += 1;
        if k == SyntaxKind::KwDo || k == SyntaxKind::KwElse || k == SyntaxKind::KwWhen || k
            == SyntaxKind::KwUnless {
            saw_kw = true;
        } else if saw_kw {
            match c {
                Element::Node(n) => {
                    if n.kind == SyntaxKind::Block {
                        return is_multiline(n);
                    }
                },
                Element::Token(t) => {
                    if contains_newline(&t.text) {
                        return true;
                    }
                },
            }
        }
    }
    false
}

/// Whether any child of `node` is a `do` token.
fn has_do_child(node: &Node) -> (r: bool)
    ensures
        r == exists|j: int|
            0 <= j < node.children@.len() && (#[trigger] node.children@[j] matches Element::Token(t)
                && t.kind == SyntaxKind::KwDo),
{
    let mut i: usize = 0;
    while i < node.children.len()
        invariant
            0 <= i <= node.children@.len(),
            forall|j: int|
                0 <= j < i ==> !(#[trigger] node.children@[j] matches Element::Token(t) && t.kind
                    == SyntaxKind::KwDo),
        decreases node.children@.len() - i,
    {
        if is_token_of(&node.children[i], SyntaxKind::KwDo) {
            return true;
        }
        i += 1;
    }
    false
}

/// Whether `k` is an assignment operator (see `assign_op`).
fn is_assign_op_kind(k: SyntaxKind) -> (r: bool)
    ensures
        r == crate::parser::assign_op(k),
{
    k == SyntaxKind::Eq || k == SyntaxKind::ColonEq || k == SyntaxKind::PlusEq || k
        == SyntaxKind::MinusEq || k == SyntaxKind::StarEq || k == SyntaxKind::SlashEq || k
        == SyntaxKind::PercentEq || k == SyntaxKind::AmpEq || k == SyntaxKind::PipeEq || k
        == SyntaxKind::CaretEq
}

// ── The formatter ─────────────────────────────────────────────────────

/// The text written so far, the indentation level, and whether the next
/// text starts a line.
struct Formatter {
    out: Vec<char>,
    indent: usize,
    at_line_start: bool,
}

impl Formatter {
    /// The formatter's state (see `FState`).
    spec fn st(&self) -> FState {
        FState { out: self.out@, indent: self.indent as int, at_start: self.at_line_start }
    }

    /// Appends one character.
    fn push_out(&mut self, c: char)
        ensures
            final(self).out@ == old(self).out@.push(c),
            ink(final(self).out@) == ink(old(self).out@) + ink(seq![c]),
            final(self).indent == old(self).indent,
            final(self).at_line_start == old(self).at_line_start,
    {
        proof {
            assert(self.out@.push(c) =~= self.out@ + seq![c]);
        }
        self.out.push(c);
    }

    /// Writes the indentation when at the start of a line.
    fn start_text(&mut self)
        ensures
            ink(final(self).out@) == ink(old(self).out@),
            !final(self).at_line_start,
            final(self).indent == old(self).indent,
            final(self).st() == s_start(old(self).st()),
    {
        if self.at_line_start {
            let ghost o = ink(self.out@);
            let mut i: usize = 0;
            proof {
                lemma_ink_char(' ');
                assert(old(self).out@ + pad(0) =~= old(self).out@);
            }
            while i < self.indent
                invariant
                    0 <= i <= self.indent,
                    self.indent == old(self).indent,
                    ink(self.out@) == o,
                    ink(seq![' ']) == Seq::<char>::empty(),
                    self.out@ == old(self).out@ + pad(i as int),
                    self.at_line_start == old(self).at_line_start,
                decreases self.indent - i,
            {
                self.push_out(' ');
                self.push_out(' ');
                proof {
                    lemma_add_empty(o);
                    assert(old(self).out@ + pad(i + 1) =~= (old(self).out@ + pad(i as int)).push(' ').push(
                        ' ',
                    ));
                }
                i += 1;
            }
            self.at_line_start = false;
        }
    }

    /// Writes one character, indenting first at the start of a line.
    fn emit_char(&mut self, c: char)
        ensures
            ink(final(self).out@) == ink(old(self).out@) + ink(seq![c]),
            !final(self).at_line_start,
            final(self).indent == old(self).indent,
            final(self).st() == s_emit(old(self).st(), seq![c]),
    {
        self.start_text();
        let ghost mid = self.out@;
        self.push_out(c);
        proof {
            assert(mid.push(c) =~= mid + seq![c]);
        }
    }

    /// Writes one space.
    fn space(&mut self)
        ensures
            ink(final(self).out@) == ink(old(self).out@),
            !final(self).at_line_start,
            final(self).indent == old(self).indent,
            final(self).st() == s_space(old(self).st()),
    {
        self.emit_char(' ');
        proof {
            lemma_ink_char(' ');
            lemma_add_empty(ink(old(self).out@));
        }
    }

    /// Writes `text`, indenting first at the start of a line; empty text
    /// writes nothing.
    fn emit(&mut self, text: &Vec<char>)
        ensures
            ink(final(self).out@) == ink(old(self).out@) + ink(text@),
            final(self).indent == old(self).indent,
            text@.len() > 0 ==> !final(self).at_line_start,
            text@.len() == 0 ==> final(self).at_line_start == old(self).at_line_start,
            final(self).st() == s_emit(old(self).st(), text@),
    {
        let ghost o = ink(self.out@);
        if text.len() == 0 {
            proof {
                assert(ink(text@) == Seq::<char>::empty());
                lemma_add_empty(o);
            }
            return;
        }
        self.start_text();
        let ghost base = self.out@;
        let mut i: usize = 0;
        proof {
            assert(text@.take(0) =~= Seq::<char>::empty());
            lemma_add_empty(o);
            assert(base + text@.take(0) =~= base);
        }
        while i < text.len()
            invariant
                0 <= i <= text@.len(),
                ink(self.out@) == o + ink(text@.take(i as int)),
                self.indent == old(self).indent,
                !self.at_line_start,
                self.out@ == base + text@.take(i as int),
                base == s_start(old(self).st()).out,
            decreases text@.len() - i,
        {
            let ghost prev = ink(text@.take(i as int));
            proof {
                assert(base + text@.take(i + 1) =~= (base + text@.take(i as int)).push(text@[i as int]));
                assert(text@.take(i + 1) =~= text@.take(i as int) + seq![text@[i as int]]);
                lemma_add_assoc(o, prev, ink(seq![text@[i as int]]));
            }
            self.push_out(text[i]);
            i += 1;
        }
        proof {
            lemma_take_all(text@);
        }
    }

    /// Writes `text` without its trailing line breaks.
    fn emit_trimmed(&mut self, text: &Vec<char>)
        ensures
            ink(final(self).out@) == ink(old(self).out@) + ink(text@),
            final(self).indent == old(self).indent,
            final(self).st() == s_emit(old(self).st(), trim_nl(text@)),
    {
        let mut end = text.len();
        while end > 0 && text[end - 1] == '\n'
            invariant
                end <= text@.len(),
                forall|j: int| end <= j < text@.len() ==> text@[j] == '\n',
            decreases end,
        {
            end -= 1;
        }
        let head = slice_chars(text, 0, end);
        proof {
            lemma_trim_nl(text@, end as int);
            assert(head@ =~= text@.take(end as int));
        }
        self.emit(&head);
        proof {
            let tail = text@.subrange(end as int, text@.len() as int);
            assert(text@ =~= head@ + tail);
            assert forall|j: int| 0 <= j < tail.len() implies is_ws_char(#[trigger] tail[j]) by {
                assert(tail[j] == text@[end + j]);
            }
            lemma_ink_all_ws(tail);
            lemma_add_empty(ink(head@));
        }
    }

    /// Ends the line.
    fn newline(&mut self)
        ensures
            final(self).out@ == old(self).out@.push('\n'),
            ink(final(self).out@) == ink(old(self).out@),
            final(self).at_line_start,
            final(self).indent == old(self).indent,
            final(self).st() == s_newline(old(self).st()),
    {
        self.push_out('\n');
        self.at_line_start = true;
        proof {
            lemma_ink_char('\n');
            lemma_add_empty(ink(old(self).out@));
        }
    }

    fn indent_more(&mut self)
        ensures
            final(self).out@ == old(self).out@,
            final(self).at_line_start == old(self).at_line_start,
            final(self).indent == if old(self).indent < usize::MAX {
                old(self).indent + 1
            } else {
                old(self).indent as int
            },
            final(self).st() == s_more(old(self).st()),
    {
        if self.indent < usize::MAX {
            self.indent = self.indent + 1;
        }
    }

    fn indent_less(&mut self)
        ensures
            final(self).out@ == old(self).out@,
            final(self).at_line_start == old(self).at_line_start,
            final(self).indent == if old(self).indent > 0 {
                old(self).indent - 1
            } else {
                0
            },
            final(self).st() == s_less(old(self).st()),
    {
        if self.indent > 0 {
            self.indent = self.indent - 1;
        }
    }

    /// Line breaks in place of a whitespace token: as many as it holds, at
    /// most two (so runs of blank lines collapse to one). Returns whether
    /// it wrote any.
    fn newlines_for(&mut self, text: &Vec<char>) -> (r: bool)
        ensures
            ink(final(self).out@) == ink(old(self).out@),
            r ==> final(self).at_line_start,
            !r ==> final(self).at_line_start == old(self).at_line_start,
            r == (newline_count(text@) > 0),
            final(self).out@ == old(self).out@ + line_breaks(
                if newline_count(text@) < 2 {
                    newline_count(text@)
                } else {
                    2
                },
            ),
            final(self).indent == old(self).indent,
            final(self).st() == s_breaks(old(self).st(), text@),
    {
        let mut n: usize = 0;
        let mut i: usize = 0;
        proof {
            assert(text@.take(0) =~= Seq::<char>::empty());
        }
        while i < text.len() && n < 2
            invariant
                0 <= i <= text@.len(),
                n <= 2,
                n == newline_count(text@.take(i as int)),
            decreases text@.len() - i,
        {
            proof {
                assert(text@.take(i + 1).drop_last() =~= text@.take(i as int));
            }
            if text[i] == '\n' {
                n += 1;
            }
            i += 1;
        }
        proof {
            lemma_newline_count_mono(text@, i as int);
            if i == text@.len() {
                assert(text@.take(i as int) =~= text@);
            }
        }
        let mut k: usize = 0;
        proof {
            assert(old(self).out@ + line_breaks(0) =~= old(self).out@);
        }
        while k < n
            invariant
                k <= n,
                ink(self.out@) == ink(old(self).out@),
                k > 0 ==> self.at_line_start,
                k == 0 ==> self.at_line_start == old(self).at_line_start,
                self.out@ == old(self).out@ + line_breaks(k as nat),
                self.indent == old(self).indent,
            decreases n - k,
        {
            self.newline();
            proof {
                assert(old(self).out@ + line_breaks((k + 1) as nat) =~= (old(self).out@ + line_breaks(
                    k as nat,
                )).push('\n'));
            }
            k += 1;
        }
        proof {
            assert(old(self).out@ + line_breaks(0) =~= old(self).out@);
        }
        n > 0
    }

    /// Writes the text under an element as it stands.
    fn emit_leaves(&mut self, e: &Element)
        ensures
            ink(final(self).out@) == ink(old(self).out@) + ink(concat_texts(leaves(*e))),
            final(self).st() == s_emit(old(self).st(), concat_texts(leaves(*e))),
        decreases e,
    {
        let ghost o = ink(self.out@);
        match e {
            Element::Token(t) => {
                proof {
                    lemma_leaves_token(*t);
                    assert(seq![t@].drop_last() =~= Seq::<(SyntaxKind, Seq<char>)>::empty());
                    assert(concat_texts(Seq::<(SyntaxKind, Seq<char>)>::empty()) == Seq::<
                        char,
                    >::empty());
                    assert(Seq::<char>::empty() + t.text@ =~= t.text@);
                }
                self.emit(&t.text);
            },
            Element::Node(n) => {
                proof {
                    lemma_leaves_node(*n);
                    assert(decreases_to!(*e => *n));
                }
                self.emit_node_text(n);
            },
        }
    }

    /// Writes the text under a node as it stands.
    fn emit_node_text(&mut self, n: &Node)
        ensures
            ink(final(self).out@) == ink(old(self).out@) + ink(node_text(*n)),
            final(self).st() == s_emit(old(self).st(), node_text(*n)),
        decreases n,
    {
        let ghost o = ink(self.out@);
        let mut i: usize = 0;
        proof {
            assert(n.children@.take(0) =~= Seq::<Element>::empty());
            assert(concat_texts(leaves_all(n.children@.take(0))) =~= Seq::<char>::empty());
            lemma_add_empty(o);
        }
        while i < n.children.len()
            invariant
                0 <= i <= n.children@.len(),
                ink(self.out@) == o + ink(concat_texts(leaves_all(n.children@.take(i as int)))),
                self.st() == s_emit(old(self).st(), concat_texts(leaves_all(n.children@.take(i as int)))),
            decreases n.children@.len() - i,
        {
            proof {
                lemma_emit_join(
                    old(self).st(),
                    concat_texts(leaves_all(n.children@.take(i as int))),
                    concat_texts(leaves(n.children@[i as int])),
                );
            }
            let ghost prev = concat_texts(leaves_all(n.children@.take(i as int)));
            let ghost cur = concat_texts(leaves(n.children@[i as int]));
            proof {
                lemma_child_decreases(*n, i as int);
                assert(n.children@.take(i + 1) =~= n.children@.take(i as int).push(n.children@[i as int]));
                lemma_leaves_all_push(n.children@.take(i as int), n.children@[i as int]);
                lemma_concat_texts_append(leaves_all(n.children@.take(i as int)), leaves(n.children@[i as int]));
                lemma_add_assoc(o, ink(prev), ink(cur));
            }
            self.emit_leaves(&n.children[i]);
            i += 1;
        }
        proof {
            lemma_take_all(n.children@);
        }
    }

    /// Writes an element: a token's text, or the node formatted.
    fn child(&mut self, e: &Element)
        ensures
            ink(final(self).out@) == ink(old(self).out@) + ink_elem(*e),
            final(self).st() == f_child(old(self).st(), *e),
        decreases e, 4nat,
    {
        match e {
            Element::Token(t) => {
                self.emit(&t.text);
            },
            Element::Node(n) => {
                proof {
                    assert(decreases_to!(*e => *n));
                }
                self.walk(n);
            },
        }
    }

    /// Formats a node according to its kind.
    fn walk(&mut self, node: &Node)
        ensures
            ink(final(self).out@) == ink(old(self).out@) + ink_node(*node),
            final(self).st() == f_walk(old(self).st(), *node),
        decreases node, 3nat,
    {
        proof {
            lemma_ink_node(*node);
        }
        let k = node.kind;
        if k == SyntaxKind::Root || k == SyntaxKind::Block {
            self.line_items(node);
        } else if k == SyntaxKind::BinaryExpr || k == SyntaxKind::RangeExpr {
            self.binary(node);
        } else if k == SyntaxKind::UnaryExpr {
            self.unary(node);
        } else if k == SyntaxKind::AssignExpr {
            self.assign(node);
        } else if k == SyntaxKind::ReturnExpr || k == SyntaxKind::TypeDecl || k
            == SyntaxKind::ExternDecl {
            self.spaced_punct(node);
        } else if k == SyntaxKind::CallExpr {
            self.call(node);
        } else if k == SyntaxKind::NavExpr || k == SyntaxKind::GroupExpr || k
            == SyntaxKind::SpreadExpr {
            self.tight(node);
        } else if k == SyntaxKind::CompoundExpr {
            self.compound(node);
        } else if k == SyntaxKind::ConditionalExpr || k == SyntaxKind::ForExpr || k
            == SyntaxKind::WhileExpr {
            self.block_kw(node);
        } else if k == SyntaxKind::ElseBranch {
            self.else_branch(node);
        } else if k == SyntaxKind::ArrayExpr {
            self.array(node);
        } else if k == SyntaxKind::ObjectExpr {
            self.object(node);
        } else if k == SyntaxKind::ArrayComprehension || k == SyntaxKind::ObjectComprehension {
            self.comprehension(node);
        } else if k == SyntaxKind::Pair {
            self.pair(node);
        } else if k == SyntaxKind::IterBinding {
            self.iter_binding(node);
        } else {
            self.emit_node_text(node);
        }
    }

    /// Statements line by line: whitespace becomes its line breaks (at most
    /// one blank line), comments stay where they are, and items on one line
    /// are separated by single spaces.
    #[verifier::loop_isolation(false)]
    fn line_items(&mut self, node: &Node)
        ensures
            ink(final(self).out@) == ink(old(self).out@) + ink_list(node.children@, 0),
            final(self).st() == f_lines(old(self).st(), *node, 0, true),
        decreases node, 1nat,
    {
        let ghost o = ink(self.out@);
        let mut first_on_line = true;
        let mut i: usize = 0;
        proof {
            lemma_ink_list_start(node.children@, 0);
            lemma_add_empty(o);
        }
        while i < node.children.len()
            invariant
                0 <= i <= node.children@.len(),
                ink(self.out@) == o + ink_list(node.children@.take(i as int), 0),
                f_lines(self.st(), *node, i as int, first_on_line) == f_lines(old(self).st(), *node, 0, true),
            decreases node.children@.len() - i,
        {
            let ghost tk = ink_list(node.children@.take(i as int), 0);
            let ghost before = ink(self.out@);
            proof {
                lemma_ink_list_step(node.children@, 0, i as int);
                lemma_child_decreases(*node, i as int);
                lemma_add_assoc(o, tk, ink_elem(node.children@[i as int]));
                lemma_add_empty(tk);
            }
            let c = &node.children[i];
            let ghost s0 = self.st();
            proof {
                assert(f_lines(s0, *node, i as int, first_on_line) == (match node.children@[i as int] {
                    Element::Token(t) => if t.kind == SyntaxKind::Whitespace {
                        f_lines(s_breaks(s0, t.text@), *node, i + 1, if breaks_of(t.text@) > 0 {
                            true
                        } else {
                            first_on_line
                        })
                    } else if t.kind == SyntaxKind::LineComment {
                        f_lines(s_newline(s_emit(space_if(s0, !first_on_line), trim_nl(t.text@))), *node, i + 1, true)
                    } else {
                        f_lines(s_emit(space_if(s0, !first_on_line), t.text@), *node, i + 1, false)
                    },
                    Element::Node(_) => f_lines(f_child(space_if(s0, !first_on_line), node.children@[i as int]), *node, i + 1, false),
                }));
            }
            match c {
                Element::Token(t) => {
                    if t.kind == SyntaxKind::Whitespace {
                        if self.newlines_for(&t.text) {
                            first_on_line = true;
                        }
                    } else if t.kind == SyntaxKind::LineComment {
                        if !first_on_line {
                            self.space();
                        }
                        self.emit_trimmed(&t.text);
                        self.newline();
                        first_on_line = true;
                    } else {
                        if !first_on_line {
                            self.space();
                        }
                        self.emit(&t.text);
                        first_on_line = false;
                    }
                },
                Element::Node(n) => {
                    if !first_on_line {
                        self.space();
                    }
                    proof {
                        lemma_grandchild_decreases(*node, i as int, *n);
                    }
                    let ghost sw = self.st();
                    self.walk(n);
                    proof {
                        assert(f_child(sw, node.children@[i as int]) == f_walk(sw, *n));
                    }
                    first_on_line = false;
                },
            }
            i += 1;
        }
        proof {
            lemma_take_all(node.children@);
        }
    }

    /// Binary operators and ranges: one space between the parts.
    #[verifier::loop_isolation(false)]
    fn binary(&mut self, node: &Node)
        ensures
            ink(final(self).out@) == ink(old(self).out@) + ink_list(node.children@, 1),
            final(self).st() == f_binary(old(self).st(), *node, 0, true),
        decreases node, 1nat,
    {
        let ghost o = ink(self.out@);
        let mut first = true;
        let mut i: usize = 0;
        proof {
            lemma_ink_list_start(node.children@, 1);
            lemma_add_empty(o);
        }
        while i < node.children.len()
            invariant
                0 <= i <= node.children@.len(),
                ink(self.out@) == o + ink_list(node.children@.take(i as int), 1),
                f_binary(self.st(), *node, i as int, first) == f_binary(old(self).st(), *node, 0, true),
            decreases node.children@.len() - i,
        {
            let ghost tk = ink_list(node.children@.take(i as int), 1);
            let ghost before = ink(self.out@);
            proof {
                lemma_ink_list_step(node.children@, 1, i as int);
                lemma_child_decreases(*node, i as int);
                lemma_add_assoc(o, tk, ink_elem(node.children@[i as int]));
                lemma_add_empty(tk);
            }
            let c = &node.children[i];
            if keeps_exec(1, c) {
                if !first {
                    self.space();
                }
                first = false;
                self.child(c);
            }
            i += 1;
        }
        proof {
            lemma_take_all(node.children@);
        }
    }

    /// Prefix operators: a space after `delete`, none after a symbol.
    #[verifier::loop_isolation(false)]
    fn unary(&mut self, node: &Node)
        ensures
            ink(final(self).out@) == ink(old(self).out@) + ink_list(node.children@, 1),
            final(self).st() == f_unary(old(self).st(), *node, 0, 0, false),
        decreases node, 1nat,
    {
        let ghost o = ink(self.out@);
        let mut first_is_delete = false;
        let mut j: usize = 0;
        let mut i: usize = 0;
        proof {
            lemma_ink_list_start(node.children@, 1);
            lemma_add_empty(o);
        }
        while i < node.children.len()
            invariant
                0 <= i <= node.children@.len(),
                ink(self.out@) == o + ink_list(node.children@.take(i as int), 1),
                f_unary(self.st(), *node, i as int, j as int, first_is_delete) == f_unary(old(self).st(), *node, 0, 0, false), j <= 2,
            decreases node.children@.len() - i,
        {
            let ghost tk = ink_list(node.children@.take(i as int), 1);
            let ghost before = ink(self.out@);
            proof {
                lemma_ink_list_step(node.children@, 1, i as int);
                lemma_child_decreases(*node, i as int);
                lemma_add_assoc(o, tk, ink_elem(node.children@[i as int]));
                lemma_add_empty(tk);
            }
            let c = &node.children[i];
            if keeps_exec(1, c) {
                if j == 1 && first_is_delete {
                    self.space();
                }
                if j == 0 {
                    first_is_delete = is_token_of(c, SyntaxKind::KwDelete);
                }
                self.child(c);
                if j < 2 {
                    j += 1;
                }
            }
            i += 1;
        }
        proof {
            lemma_take_all(node.children@);
        }
    }

    /// Assignments: `x = 1`, `x: T = 1`, `x += 1`.
    #[verifier::loop_isolation(false)]
    fn assign(&mut self, node: &Node)
        ensures
            ink(final(self).out@) == ink(old(self).out@) + ink_list(node.children@, 1),
            final(self).st() == f_assign(old(self).st(), *node, 0, false, false),
        decreases node, 1nat,
    {
        let ghost o = ink(self.out@);
        let mut after_punct = false;
        let mut started = false;
        let mut i: usize = 0;
        proof {
            lemma_ink_list_start(node.children@, 1);
            lemma_add_empty(o);
        }
        while i < node.children.len()
            invariant
                0 <= i <= node.children@.len(),
                ink(self.out@) == o + ink_list(node.children@.take(i as int), 1),
                f_assign(self.st(), *node, i as int, after_punct, started) == f_assign(old(self).st(), *node, 0, false, false),
            decreases node.children@.len() - i,
        {
            let ghost tk = ink_list(node.children@.take(i as int), 1);
            let ghost before = ink(self.out@);
            proof {
                lemma_ink_list_step(node.children@, 1, i as int);
                lemma_child_decreases(*node, i as int);
                lemma_add_assoc(o, tk, ink_elem(node.children@[i as int]));
                lemma_add_empty(tk);
            }
            let c = &node.children[i];
            if keeps_exec(1, c) {
                let k = kind_of(c);
                if k == SyntaxKind::Colon && is_token_of(c, SyntaxKind::Colon) {
                    self.child(c);
                    self.space();
                    after_punct = true;
                } else if is_assign_op_kind(k) && is_token_of(c, k) {
                    self.space();
                    self.child(c);
                    self.space();
                    after_punct = true;
                } else {
                    if started && !after_punct {
                        self.space();
                    }
                    after_punct = false;
                    self.child(c);
                }
                started = true;
            }
            i += 1;
        }
        proof {
            lemma_take_all(node.children@);
        }
    }

    /// `return`, type and extern declarations: spaces between the parts,
    /// `:` tight, ` = `, ` -> `, `, ` and ` in ` spaced.
    #[verifier::loop_isolation(false)]
    fn spaced_punct(&mut self, node: &Node)
        ensures
            ink(final(self).out@) == ink(old(self).out@) + ink_list(node.children@, 1),
            final(self).st() == f_spaced(old(self).st(), *node, 0, false, false),
        decreases node, 1nat,
    {
        let ghost o = ink(self.out@);
        let mut after_punct = false;
        let mut started = false;
        let mut i: usize = 0;
        proof {
            lemma_ink_list_start(node.children@, 1);
            lemma_add_empty(o);
        }
        while i < node.children.len()
            invariant
                0 <= i <= node.children@.len(),
                ink(self.out@) == o + ink_list(node.children@.take(i as int), 1),
                f_spaced(self.st(), *node, i as int, after_punct, started) == f_spaced(old(self).st(), *node, 0, false, false),
            decreases node.children@.len() - i,
        {
            let ghost tk = ink_list(node.children@.take(i as int), 1);
            let ghost before = ink(self.out@);
            proof {
                lemma_ink_list_step(node.children@, 1, i as int);
                lemma_child_decreases(*node, i as int);
                lemma_add_assoc(o, tk, ink_elem(node.children@[i as int]));
                lemma_add_empty(tk);
            }
            let c = &node.children[i];
            if keeps_exec(1, c) {
                let k = kind_of(c);
                let tok = is_token_of(c, k);
                if tok && k == SyntaxKind::Colon {
                    self.child(c);
                    after_punct = true;
                } else if tok && (k == SyntaxKind::Eq || k == SyntaxKind::Arrow || k
                    == SyntaxKind::KwIn || k == SyntaxKind::KwOf) {
                    self.space();
                    self.child(c);
                    self.space();
                    after_punct = true;
                } else if tok && k == SyntaxKind::Comma {
                    self.child(c);
                    self.space();
                    after_punct = true;
                } else {
                    if started && !after_punct {
                        self.space();
                    }
                    after_punct = false;
                    self.child(c);
                }
                started = true;
            }
            i += 1;
        }
        proof {
            lemma_take_all(node.children@);
        }
    }

    /// Calls: tight around the parentheses, `, ` between arguments.
    #[verifier::loop_isolation(false)]
    fn call(&mut self, node: &Node)
        ensures
            ink(final(self).out@) == ink(old(self).out@) + ink_list(node.children@, 1),
            final(self).st() == f_call(old(self).st(), *node, 0),
        decreases node, 1nat,
    {
        let ghost o = ink(self.out@);
        let mut i: usize = 0;
        proof {
            lemma_ink_list_start(node.children@, 1);
            lemma_add_empty(o);
        }
        while i < node.children.len()
            invariant
                0 <= i <= node.children@.len(),
                ink(self.out@) == o + ink_list(node.children@.take(i as int), 1),
                f_call(self.st(), *node, i as int) == f_call(old(self).st(), *node, 0),
            decreases node.children@.len() - i,
        {
            let ghost tk = ink_list(node.children@.take(i as int), 1);
            let ghost before = ink(self.out@);
            proof {
                lemma_ink_list_step(node.children@, 1, i as int);
                lemma_child_decreases(*node, i as int);
                lemma_add_assoc(o, tk, ink_elem(node.children@[i as int]));
                lemma_add_empty(tk);
            }
            let c = &node.children[i];
            if keeps_exec(1, c) {
                self.child(c);
                if is_token_of(c, SyntaxKind::Comma) {
                    self.space();
                }
            }
            i += 1;
        }
        proof {
            lemma_take_all(node.children@);
        }
    }

    /// Sequences `a; b`: each `;` followed by a space, nothing else between.
    #[verifier::loop_isolation(false)]
    fn compound(&mut self, node: &Node)
        ensures
            ink(final(self).out@) == ink(old(self).out@) + ink_list(node.children@, 1),
            final(self).st() == f_compound(old(self).st(), *node, 0),
        decreases node, 1nat,
    {
        let ghost o = ink(self.out@);
        let mut i: usize = 0;
        proof {
            lemma_ink_list_start(node.children@, 1);
            lemma_add_empty(o);
        }
        while i < node.children.len()
            invariant
                0 <= i <= node.children@.len(),
                ink(self.out@) == o + ink_list(node.children@.take(i as int), 1),
                f_compound(self.st(), *node, i as int) == f_compound(old(self).st(), *node, 0),
            decreases node.children@.len() - i,
        {
            let ghost tk = ink_list(node.children@.take(i as int), 1);
            proof {
                lemma_ink_list_step(node.children@, 1, i as int);
                lemma_child_decreases(*node, i as int);
                lemma_add_assoc(o, tk, ink_elem(node.children@[i as int]));
                lemma_add_empty(tk);
            }
            let c = &node.children[i];
            if keeps_exec(1, c) {
                self.child(c);
                if is_token_of(c, SyntaxKind::Semicolon) {
                    self.space();
                }
            }
            i += 1;
        }
        proof {
            lemma_take_all(node.children@);
        }
    }

    /// Navigation, groups and spreads: no spaces at all.
    #[verifier::loop_isolation(false)]
    fn tight(&mut self, node: &Node)
        ensures
            ink(final(self).out@) == ink(old(self).out@) + ink_list(node.children@, 1),
            final(self).st() == f_tight(old(self).st(), *node, 0),
        decreases node, 1nat,
    {
        let ghost o = ink(self.out@);
        let mut i: usize = 0;
        proof {
            lemma_ink_list_start(node.children@, 1);
            lemma_add_empty(o);
        }
        while i < node.children.len()
            invariant
                0 <= i <= node.children@.len(),
                ink(self.out@) == o + ink_list(node.children@.take(i as int), 1),
                f_tight(self.st(), *node, i as int) == f_tight(old(self).st(), *node, 0),
            decreases node.children@.len() - i,
        {
            let ghost tk = ink_list(node.children@.take(i as int), 1);
            let ghost before = ink(self.out@);
            proof {
                lemma_ink_list_step(node.children@, 1, i as int);
                lemma_child_decreases(*node, i as int);
                lemma_add_assoc(o, tk, ink_elem(node.children@[i as int]));
                lemma_add_empty(tk);
            }
            let c = &node.children[i];
            if keeps_exec(1, c) {
                self.child(c);
            }
            i += 1;
        }
        proof {
            lemma_take_all(node.children@);
        }
    }

    /// Object pairs: `key:value`.
    #[verifier::loop_isolation(false)]
    fn pair(&mut self, node: &Node)
        ensures
            ink(final(self).out@) == ink(old(self).out@) + ink_list(node.children@, 1),
            final(self).st() == f_pair(old(self).st(), *node, 0, false, false),
        decreases node, 1nat,
    {
        let ghost o = ink(self.out@);
        let mut after_colon = false;
        let mut started = false;
        let mut i: usize = 0;
        proof {
            lemma_ink_list_start(node.children@, 1);
            lemma_add_empty(o);
        }
        while i < node.children.len()
            invariant
                0 <= i <= node.children@.len(),
                ink(self.out@) == o + ink_list(node.children@.take(i as int), 1),
                f_pair(self.st(), *node, i as int, after_colon, started) == f_pair(old(self).st(), *node, 0, false, false),
            decreases node.children@.len() - i,
        {
            let ghost tk = ink_list(node.children@.take(i as int), 1);
            let ghost before = ink(self.out@);
            proof {
                lemma_ink_list_step(node.children@, 1, i as int);
                lemma_child_decreases(*node, i as int);
                lemma_add_assoc(o, tk, ink_elem(node.children@[i as int]));
                lemma_add_empty(tk);
            }
            let c = &node.children[i];
            if keeps_exec(1, c) {
                if is_token_of(c, SyntaxKind::Colon) {
                    self.child(c);
                    after_colon = true;
                } else {
                    if started && !after_colon {
                        self.space();
                    }
                    after_colon = false;
                    self.child(c);
                }
                started = true;
            }
            i += 1;
        }
        proof {
            lemma_take_all(node.children@);
        }
    }

    /// Iteration bindings: `k v in items`; commas between names are dropped.
    #[verifier::loop_isolation(false)]
    fn iter_binding(&mut self, node: &Node)
        ensures
            ink(final(self).out@) == ink(old(self).out@) + ink_list(node.children@, 2),
            final(self).st() == f_iter(old(self).st(), *node, 0, true),
        decreases node, 1nat,
    {
        let ghost o = ink(self.out@);
        let mut first = true;
        let mut i: usize = 0;
        proof {
            lemma_ink_list_start(node.children@, 2);
            lemma_add_empty(o);
        }
        while i < node.children.len()
            invariant
                0 <= i <= node.children@.len(),
                ink(self.out@) == o + ink_list(node.children@.take(i as int), 2),
                f_iter(self.st(), *node, i as int, first) == f_iter(old(self).st(), *node, 0, true),
            decreases node.children@.len() - i,
        {
            let ghost tk = ink_list(node.children@.take(i as int), 2);
            let ghost before = ink(self.out@);
            proof {
                lemma_ink_list_step(node.children@, 2, i as int);
                lemma_child_decreases(*node, i as int);
                lemma_add_assoc(o, tk, ink_elem(node.children@[i as int]));
                lemma_add_empty(tk);
            }
            let c = &node.children[i];
            if keeps_exec(2, c) {
                if is_token_of(c, SyntaxKind::KwIn) || is_token_of(c, SyntaxKind::KwOf) {
                    self.space();
                    self.child(c);
                    self.space();
                    first = true;
                } else {
                    if !first {
                        self.space();
                    }
                    first = false;
                    self.child(c);
                }
            }
            i += 1;
        }
        proof {
            lemma_take_all(node.children@);
        }
    }

    /// `when`/`unless`, `for` and `while`: the body goes on lines of its own
    /// when it spans lines in the source, else stays on the line.
    #[verifier::loop_isolation(false)]
    fn block_kw(&mut self, node: &Node)
        ensures
            ink(final(self).out@) == ink(old(self).out@) + ink_list(node.children@, 0),
            final(self).st() == f_block_kw(old(self).st(), *node, 0, body_ml_from(node.children@, 0, false)),
        decreases node, 1nat,
    {
        let ghost o = ink(self.out@);
        let body_ml = body_multiline(node);
        let mut i: usize = 0;
        proof {
            lemma_ink_list_start(node.children@, 0);
            lemma_add_empty(o);
        }
        while i < node.children.len()
            invariant
                0 <= i <= node.children@.len(),
                ink(self.out@) == o + ink_list(node.children@.take(i as int), 0),
                f_block_kw(self.st(), *node, i as int, body_ml) == f_block_kw(old(self).st(), *node, 0, body_ml),
            decreases node.children@.len() - i,
        {
            let ghost tk = ink_list(node.children@.take(i as int), 0);
            let ghost before = ink(self.out@);
            proof {
                lemma_ink_list_step(node.children@, 0, i as int);
                lemma_child_decreases(*node, i as int);
                lemma_add_assoc(o, tk, ink_elem(node.children@[i as int]));
                lemma_add_empty(tk);
            }
            let c = &node.children[i];
            match c {
                Element::Token(t) => {
                    let k = t.kind;
                    if k == SyntaxKind::Whitespace {
                    } else if k == SyntaxKind::LineComment {
                        self.space();
                        self.emit_trimmed(&t.text);
                        if body_ml {
                            self.newline();
                        }
                    } else if k == SyntaxKind::BlockComment {
                        self.space();
                        self.emit(&t.text);
                    } else if k == SyntaxKind::KwWhen || k == SyntaxKind::KwUnless || k
                        == SyntaxKind::KwFor || k == SyntaxKind::KwWhile {
                        self.emit(&t.text);
                        self.space();
                    } else if k == SyntaxKind::KwDo {
                        self.space();
                        self.emit(&t.text);
                        if body_ml {
                            self.indent_more();
                            self.newline();
                        } else {
                            self.space();
                        }
                    } else if k == SyntaxKind::KwEnd {
                        if body_ml {
                            self.indent_less();
                            self.newline();
                        } else {
                            self.space();
                        }
                        self.emit(&t.text);
                    } else {
                        self.emit(&t.text);
                    }
                },
                Element::Node(n) => {
                    proof {
                        lemma_grandchild_decreases(*node, i as int, *n);
                        lemma_ink_node(*n);
                    }
                    if n.kind == SyntaxKind::ElseBranch {
                        self.else_branch(n);
                    } else if n.kind == SyntaxKind::Block {
                        self.line_items(n);
                    } else {
                        self.walk(n);
                    }
                },
            }
            i += 1;
        }
        proof {
            lemma_take_all(node.children@);
        }
    }

    /// `else [when c do] block`: `else` goes back to the construct's
    /// indentation on a line of its own.
    #[verifier::loop_isolation(false)]
    fn else_branch(&mut self, node: &Node)
        ensures
            ink(final(self).out@) == ink(old(self).out@) + ink_list(node.children@, 1),
            final(self).st() == f_else(old(self).st(), *node, 0, around_from(node.children@, 0, false), has_do(*node)),
        decreases node, 1nat,
    {
        let ghost o = ink(self.out@);
        let block_ml = newlines_around_block(node);
        let has_do = has_do_child(node);
        let mut i: usize = 0;
        proof {
            lemma_ink_list_start(node.children@, 1);
            lemma_add_empty(o);
        }
        while i < node.children.len()
            invariant
                0 <= i <= node.children@.len(),
                ink(self.out@) == o + ink_list(node.children@.take(i as int), 1),
                f_else(self.st(), *node, i as int, block_ml, has_do) == f_else(old(self).st(), *node, 0, block_ml, has_do),
            decreases node.children@.len() - i,
        {
            let ghost tk = ink_list(node.children@.take(i as int), 1);
            let ghost before = ink(self.out@);
            proof {
                lemma_ink_list_step(node.children@, 1, i as int);
                lemma_child_decreases(*node, i as int);
                lemma_add_assoc(o, tk, ink_elem(node.children@[i as int]));
                lemma_add_empty(tk);
            }
            let c = &node.children[i];
            if keeps_exec(1, c) {
                match c {
                    Element::Token(t) => {
                        let k = t.kind;
                        if k == SyntaxKind::KwElse {
                            self.indent_less();
                            self.newline();
                            self.emit(&t.text);
                        } else if k == SyntaxKind::KwWhen || k == SyntaxKind::KwUnless {
                            self.space();
                            self.emit(&t.text);
                            self.space();
                        } else if k == SyntaxKind::KwDo {
                            self.space();
                            self.emit(&t.text);
                            if block_ml {
                                self.indent_more();
                                self.newline();
                            } else {
                                self.space();
                            }
                        } else {
                            self.emit(&t.text);
                        }
                    },
                    Element::Node(n) => {
                        proof {
                            lemma_grandchild_decreases(*node, i as int, *n);
                            lemma_ink_node(*n);
                        }
                        if n.kind == SyntaxKind::Block {
                            if !has_do {
                                if block_ml {
                                    self.indent_more();
                                    self.newline();
                                } else {
                                    self.space();
                                }
                            }
                            self.line_items(n);
                        } else {
                            self.walk(n);
                        }
                    },
                }
            }
            i += 1;
        }
        proof {
            lemma_take_all(node.children@);
        }
    }

    /// Arrays and objects over several lines: the line structure stays,
    /// commas go, and the contents are indented one level.
    #[verifier::loop_isolation(false)]
    fn collection_multiline(&mut self, node: &Node)
        ensures
            ink(final(self).out@) == ink(old(self).out@) + ink_list(node.children@, 5),
            final(self).st() == f_multiline(old(self).st(), *node, 0, false),
        decreases node, 1nat,
    {
        let ghost o = ink(self.out@);
        let mut i: usize = 0;
        proof {
            lemma_ink_list_start(node.children@, 5);
            lemma_add_empty(o);
        }
        while i < node.children.len()
            invariant
                0 <= i <= node.children@.len(),
                ink(self.out@) == o + ink_list(node.children@.take(i as int), 5),
                f_multiline(self.st(), *node, i as int, false) == f_multiline(old(self).st(), *node, 0, false),
            decreases node.children@.len() - i,
        {
            let ghost tk = ink_list(node.children@.take(i as int), 5);
            let ghost before = ink(self.out@);
            proof {
                lemma_ink_list_step(node.children@, 5, i as int);
                lemma_child_decreases(*node, i as int);
                lemma_add_assoc(o, tk, ink_elem(node.children@[i as int]));
                lemma_add_empty(tk);
            }
            let c = &node.children[i];
            match c {
                Element::Token(t) => {
                    let k = t.kind;
                    if k == SyntaxKind::Whitespace {
                        self.newlines_for(&t.text);
                    } else if k == SyntaxKind::LineComment {
                        self.emit_trimmed(&t.text);
                        self.newline();
                    } else if k == SyntaxKind::BlockComment {
                        self.emit(&t.text);
                    } else if k == SyntaxKind::Comma || k == SyntaxKind::Hash {
                    } else if k == SyntaxKind::LBracket || k == SyntaxKind::LBrace {
                        self.emit(&t.text);
                        self.indent_more();
                        if !next_has_newline(node, i) {
                            self.space();
                        }
                    } else if k == SyntaxKind::RBracket || k == SyntaxKind::RBrace {
                        self.indent_less();
                        if !self.at_line_start {
                            self.space();
                        }
                        self.emit(&t.text);
                    } else {
                        self.emit(&t.text);
                    }
                },
                Element::Node(_) => {
                    if keeps_exec(5, c) {
                        self.child(c);
                    }
                },
            }
            i += 1;
        }
        proof {
            lemma_take_all(node.children@);
        }
    }

    /// Comprehensions over several lines, like multi-line collections.
    #[verifier::loop_isolation(false)]
    fn comprehension_multiline(&mut self, node: &Node)
        ensures
            ink(final(self).out@) == ink(old(self).out@) + ink_list(node.children@, 7),
            final(self).st() == f_multiline(old(self).st(), *node, 0, true),
        decreases node, 1nat,
    {
        let ghost o = ink(self.out@);
        let mut i: usize = 0;
        proof {
            lemma_ink_list_start(node.children@, 7);
            lemma_add_empty(o);
        }
        while i < node.children.len()
            invariant
                0 <= i <= node.children@.len(),
                ink(self.out@) == o + ink_list(node.children@.take(i as int), 7),
                f_multiline(self.st(), *node, i as int, true) == f_multiline(old(self).st(), *node, 0, true),
            decreases node.children@.len() - i,
        {
            let ghost tk = ink_list(node.children@.take(i as int), 7);
            let ghost before = ink(self.out@);
            proof {
                lemma_ink_list_step(node.children@, 7, i as int);
                lemma_child_decreases(*node, i as int);
                lemma_add_assoc(o, tk, ink_elem(node.children@[i as int]));
                lemma_add_empty(tk);
            }
            let c = &node.children[i];
            match c {
                Element::Token(t) => {
                    let k = t.kind;
                    if k == SyntaxKind::Whitespace {
                        self.newlines_for(&t.text);
                    } else if k == SyntaxKind::LineComment {
                        self.emit_trimmed(&t.text);
                        self.newline();
                    } else if k == SyntaxKind::BlockComment {
                        self.emit(&t.text);
                    } else if k == SyntaxKind::LBracket || k == SyntaxKind::LBrace {
                        self.emit(&t.text);
                        self.indent_more();
                        if !next_has_newline(node, i) {
                            self.space();
                        }
                    } else if k == SyntaxKind::RBracket || k == SyntaxKind::RBrace {
                        self.indent_less();
                        if !self.at_line_start {
                            self.space();
                        }
                        self.emit(&t.text);
                    } else if k == SyntaxKind::Comma {
                    } else if k == SyntaxKind::KwFor || k == SyntaxKind::KwWhile || k
                        == SyntaxKind::KwIn || k == SyntaxKind::KwOf || k == SyntaxKind::Colon {
                        self.emit(&t.text);
                        self.space();
                    } else {
                        self.emit(&t.text);
                    }
                },
                Element::Node(_) => {
                    if keeps_exec(7, c) {
                        self.child(c);
                    }
                },
            }
            i += 1;
        }
        proof {
            lemma_take_all(node.children@);
        }
    }

    /// Arrays: `[ a, b ]` (commas kept when the source had them) or `[]` on
    /// one line, else laid out like the source.
    #[verifier::loop_isolation(false)]
    fn array(&mut self, node: &Node)
        requires
            node.kind == SyntaxKind::ArrayExpr,
        ensures
            ink(final(self).out@) == ink(old(self).out@) + ink_node(*node),
            final(self).st() == f_array(old(self).st(), *node),
        decreases node, 2nat,
    {
        proof {
            lemma_ink_node(*node);
        }
        if is_multiline(node) {
            self.collection_multiline(node);
            return;
        }
        let commas = has_comma_child(node);
        let any = keeps_any(node, 3);
        let ghost sep = array_sep(node.children@);
        let ghost o = ink(self.out@);
        proof {
            lemma_ink_char('[');
            lemma_ink_char(']');
            lemma_ink_char(',');
            lemma_ink_list_start(node.children@, 3);
            assert(ink_join(node.children@.take(0), 3, sep) == Seq::<char>::empty());
            assert(kept_count(node.children@.take(0), 3) == 0);
        }
        self.emit_char('[');
        if any {
            self.space();
        }
        proof {
            assert(o + seq!['['] + ink_join(node.children@.take(0), 3, sep) =~= o + seq!['[']);
        }
        let ghost s_items = self.st();
        let mut started = false;
        let mut i: usize = 0;
        while i < node.children.len()
            invariant
                0 <= i <= node.children@.len(),
                ink(self.out@) == o + seq!['['] + ink_join(node.children@.take(i as int), 3, sep),
                f_array_items(self.st(), *node, i as int, started, commas) == f_array_items(s_items, *node, 0, false, commas),
                started == (kept_count(node.children@.take(i as int), 3) > 0),
            decreases node.children@.len() - i,
        {
            let ghost tk = ink_join(node.children@.take(i as int), 3, sep);
            proof {
                lemma_ink_join_step(node.children@, 3, sep, i as int);
                lemma_child_decreases(*node, i as int);
            }
            let c = &node.children[i];
            if keeps_exec(3, c) {
                if started {
                    if commas {
                        self.emit_char(',');
                    }
                    self.space();
                }
                self.child(c);
                started = true;
                proof {
                    if kept_count(node.children@.take(i as int), 3) > 0 {
                        assert(o + seq!['['] + tk + sep + ink_elem(node.children@[i as int]) =~= o
                            + seq!['['] + (tk + sep + ink_elem(node.children@[i as int])));
                    } else {
                        assert(o + seq!['['] + tk + ink_elem(node.children@[i as int]) =~= o
                            + seq!['['] + (tk + ink_elem(node.children@[i as int])));
                    }
                }
            }
            i += 1;
        }
        if any {
            self.space();
        }
        self.emit_char(']');
        proof {
            lemma_take_all(node.children@);
            assert(o + seq!['['] + ink_join(node.children@, 3, sep) + seq![']'] =~= o + (seq!['[']
                + ink_join(node.children@, 3, sep) + seq![']']));
        }
    }

    /// Objects: `{ a:1 b:2 }` or `{}` on one line (commas and comments
    /// dropped), else laid out like the source.
    #[verifier::loop_isolation(false)]
    fn object(&mut self, node: &Node)
        requires
            node.kind == SyntaxKind::ObjectExpr,
        ensures
            ink(final(self).out@) == ink(old(self).out@) + ink_node(*node),
            final(self).st() == f_object(old(self).st(), *node),
        decreases node, 2nat,
    {
        proof {
            lemma_ink_node(*node);
        }
        if is_multiline(node) {
            self.collection_multiline(node);
            return;
        }
        let any = keeps_any(node, 4);
        let ghost o = ink(self.out@);
        proof {
            lemma_ink_char('{');
            lemma_ink_char('}');
            lemma_ink_list_start(node.children@, 4);
        }
        self.emit_char('{');
        if any {
            self.space();
        }
        proof {
            assert(o + seq!['{'] + ink_list(node.children@.take(0), 4) =~= o + seq!['{']);
        }
        let ghost s_items = self.st();
        let mut started = false;
        let mut i: usize = 0;
        while i < node.children.len()
            invariant
                0 <= i <= node.children@.len(),
                ink(self.out@) == o + seq!['{'] + ink_list(node.children@.take(i as int), 4),
                f_object_items(self.st(), *node, i as int, started) == f_object_items(s_items, *node, 0, false),
            decreases node.children@.len() - i,
        {
            let ghost tk = ink_list(node.children@.take(i as int), 4);
            proof {
                lemma_ink_list_step(node.children@, 4, i as int);
                lemma_child_decreases(*node, i as int);
            }
            let c = &node.children[i];
            if keeps_exec(4, c) {
                if started {
                    self.space();
                }
                self.child(c);
                started = true;
                proof {
                    assert(o + seq!['{'] + tk + ink_elem(node.children@[i as int]) =~= o + seq!['{']
                        + (tk + ink_elem(node.children@[i as int])));
                }
            } else {
                proof {
                    lemma_add_empty(tk);
                }
            }
            i += 1;
        }
        if any {
            self.space();
        }
        self.emit_char('}');
        proof {
            lemma_take_all(node.children@);
            assert(o + seq!['{'] + ink_list(node.children@, 4) + seq!['}'] =~= o + (seq!['{']
                + ink_list(node.children@, 4) + seq!['}']));
        }
    }

    /// Comprehensions: `[ e for v in xs ]` on one line, else laid out like
    /// the source.
    fn comprehension(&mut self, node: &Node)
        requires
            node.kind == SyntaxKind::ArrayComprehension || node.kind
                == SyntaxKind::ObjectComprehension,
        ensures
            ink(final(self).out@) == ink(old(self).out@) + ink_node(*node),
            final(self).st() == f_comprehension(old(self).st(), *node),
        decreases node, 2nat,
    {
        proof {
            lemma_ink_node(*node);
        }
        if is_multiline(node) {
            self.comprehension_multiline(node);
        } else {
            self.comprehension_inline(node);
        }
    }

    /// A comprehension on one line.
    #[verifier::loop_isolation(false)]
    fn comprehension_inline(&mut self, node: &Node)
        requires
            !is_multiline_text(node_text(*node)),
            node.kind == SyntaxKind::ArrayComprehension || node.kind
                == SyntaxKind::ObjectComprehension,
        ensures
            ink(final(self).out@) == ink(old(self).out@) + (if node.kind
                == SyntaxKind::ArrayComprehension {
                seq!['['] + ink_list(node.children@, 6) + seq![']']
            } else {
                seq!['{'] + ink_list(node.children@, 6) + seq!['}']
            }),
            final(self).st() == f_comprehension(old(self).st(), *node),
        decreases node, 1nat,
    {
        let is_array = node.kind == SyntaxKind::ArrayComprehension;
        let open = if is_array {
            '['
        } else {
            '{'
        };
        let close = if is_array {
            ']'
        } else {
            '}'
        };
        let ghost o = ink(self.out@);
        proof {
            lemma_ink_char(open);
            lemma_ink_char(close);
            lemma_ink_list_start(node.children@, 6);
        }
        self.emit_char(open);
        self.space();
        proof {
            assert(o + seq![open] + ink_list(node.children@.take(0), 6) =~= o + seq![open]);
        }
        let mut after_colon = false;
        let ghost s_items = self.st();
        let mut started = false;
        let mut i: usize = 0;
        while i < node.children.len()
            invariant
                0 <= i <= node.children@.len(),
                ink(self.out@) == o + seq![open] + ink_list(node.children@.take(i as int), 6),
                f_comp_items(self.st(), *node, i as int, after_colon, started) == f_comp_items(s_items, *node, 0, false, false),
            decreases node.children@.len() - i,
        {
            let ghost tk = ink_list(node.children@.take(i as int), 6);
            proof {
                lemma_ink_list_step(node.children@, 6, i as int);
                lemma_child_decreases(*node, i as int);
            }
            let c = &node.children[i];
            if keeps_exec(6, c) {
                if is_token_of(c, SyntaxKind::Colon) {
                    self.child(c);
                    self.space();
                    after_colon = true;
                } else {
                    if started && !after_colon {
                        self.space();
                    }
                    after_colon = false;
                    self.child(c);
                }
                started = true;
                proof {
                    assert(o + seq![open] + tk + ink_elem(node.children@[i as int]) =~= o
                        + seq![open] + (tk + ink_elem(node.children@[i as int])));
                }
            } else {
                proof {
                    lemma_add_empty(tk);
                }
            }
            i += 1;
        }
        self.space();
        self.emit_char(close);
        proof {
            lemma_take_all(node.children@);
            assert(o + seq![open] + ink_list(node.children@, 6) + seq![close] =~= o + (seq![open]
                + ink_list(node.children@, 6) + seq![close]));
        }
    }
}


/// Formats a syntax tree: the layout that `format_v` gives. The output holds
/// what `ink_node` says of the tree, up to whitespace, and ends with
/// exactly one line break.
pub fn format_tree(root: &Node) -> (r: String)
    ensures
        r@ == format_v(*root),
        ink(r@) == ink_node(*root),
        r@.len() > 0,
        r@.last() == '\n',
        r@.len() > 1 ==> r@[r@.len() - 2] != '\n',
{
    let mut f = Formatter { out: Vec::new(), indent: 0, at_line_start: true };
    proof {
        assert(f.st() == start_state());
        assert(ink(Seq::<char>::empty()) == Seq::<char>::empty());
        assert(Seq::<char>::empty() + ink_node(*root) =~= ink_node(*root));
    }
    f.walk(root);
    let mut end = f.out.len();
    while end > 0 && f.out[end - 1] == '\n'
        invariant
            end <= f.out@.len(),
            forall|j: int| end <= j < f.out@.len() ==> f.out@[j] == '\n',
        decreases end,
    {
        end -= 1;
    }
    let mut v = slice_chars(&f.out, 0, end);
    let ghost head = v@;
    v.push('\n');
    proof {
        let tail = f.out@.subrange(end as int, f.out@.len() as int);
        assert(f.out@ =~= head + tail);
        assert forall|j: int| 0 <= j < tail.len() implies is_ws_char(#[trigger] tail[j]) by {
            assert(tail[j] == f.out@[end + j]);
        }
        lemma_ink_all_ws(tail);
        lemma_add_empty(ink(head));
        assert(v@ =~= head + seq!['\n']);
        lemma_ink_char('\n');
        if end > 0 {
            assert(v@[v@.len() - 2] == f.out@[end - 1]);
        }
        lemma_trim_nl(f.out@, end as int);
        assert(head =~= f.out@.take(end as int));
    }
    chars_to_string(&v)
}

/// What `format` promises of the text `r` it makes of `source`: it is the
/// layout (`format_v`) of the parser's tree of `source`; so its ink is that
/// of the tree, and it ends with exactly one line break.
pub open spec fn formats_to(source: Seq<char>, r: Seq<char>) -> bool {
    &&& exists|root: Node|
        #![trigger ink_node(root)]
        crate::parser::is_parse_of(root, source) && node_text(root) == source && r == format_v(root)
            && ink(r) == ink_node(root)
    &&& r.len() > 0
    &&& r.last() == '\n'
    &&& r.len() > 1 ==> r[r.len() - 2] != '\n'
}

/// Formats Rex source: normalizes spaces around operators, after colons and
/// commas and around keywords, drops the commas of objects, indents two
/// spaces per level, keeps comments and the line structure (collapsing
/// blank lines to one), and ends the text with exactly one line break: the
/// layout (`format_v`) of the parser's tree of the source.
pub fn format(source: &str) -> (r: String)
    requires
        source@.len() + 4 <= usize::MAX,
    ensures
        exists|root: Node|
            #![trigger ink_node(root)]
            crate::parser::is_parse_of(root, source@) && node_text(root) == source@ && r@ == format_v(
                root,
            ) && ink(r@) == ink_node(root),
        r@.len() > 0,
        r@.last() == '\n',
        r@.len() > 1 ==> r@[r@.len() - 2] != '\n',
{
    let root = parse(source);
    format_tree(&root)
}
} // verus!
