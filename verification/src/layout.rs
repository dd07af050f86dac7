//! The layout rules of the formatter as spec functions.
//!
//! The formatter's state is the text written so far, the indentation level
//! and whether the next text starts a line. Each spec function below gives
//! the state after a construct is written from a given state; the
//! formatter's methods are proved to produce exactly these states, and
//! `format_v` is the text that `format` returns for a tree.

use vstd::prelude::*;
use crate::format::{
    around_from, body_ml_from, has_comma, is_multiline_text, kept_count, keeps, line_breaks,
    newline_count, newline_token, node_text,
};
use crate::parser::assign_op;
use crate::syntax::{Element, Node, SyntaxKind};

verus! {

/// The formatter's state: the text so far, the indentation level (two
/// spaces each), and whether the next text starts a line.
pub struct FState {
    pub out: Seq<char>,
    pub indent: int,
    pub at_start: bool,
}

/// The indentation of `level` levels: two spaces each.
pub open spec fn pad(level: int) -> Seq<char> {
    Seq::new((2 * level) as nat, |i: int| ' ')
}

/// Before text: the indentation, when at the start of a line.
pub open spec fn s_start(s: FState) -> FState {
    if s.at_start {
        FState { out: s.out + pad(s.indent), indent: s.indent, at_start: false }
    } else {
        s
    }
}

/// Writing `t` (nothing for empty text).
pub open spec fn s_emit(s: FState, t: Seq<char>) -> FState {
    if t.len() == 0 {
        s
    } else {
        let s1 = s_start(s);
        FState { out: s1.out + t, indent: s1.indent, at_start: false }
    }
}

/// Writing one space.
pub open spec fn s_space(s: FState) -> FState {
    s_emit(s, seq![' '])
}

/// Ending the line.
pub open spec fn s_newline(s: FState) -> FState {
    FState { out: s.out.push('\n'), indent: s.indent, at_start: true }
}

/// One level deeper.
pub open spec fn s_more(s: FState) -> FState {
    FState {
        out: s.out,
        indent: if s.indent < usize::MAX {
            s.indent + 1
        } else {
            s.indent
        },
        at_start: s.at_start,
    }
}

/// One level less deep.
pub open spec fn s_less(s: FState) -> FState {
    FState {
        out: s.out,
        indent: if s.indent > 0 {
            s.indent - 1
        } else {
            0
        },
        at_start: s.at_start,
    }
}

/// `t` without its trailing line breaks.
pub open spec fn trim_nl(t: Seq<char>) -> Seq<char>
    decreases t.len(),
{
    if t.len() > 0 && t.last() == '\n' {
        trim_nl(t.drop_last())
    } else {
        t
    }
}

/// How many line breaks stand for a whitespace token: those it holds, at
/// most two.
pub open spec fn breaks_of(t: Seq<char>) -> nat {
    if newline_count(t) < 2 {
        newline_count(t)
    } else {
        2
    }
}

/// Line breaks in place of the whitespace `t`.
pub open spec fn s_breaks(s: FState, t: Seq<char>) -> FState {
    if breaks_of(t) > 0 {
        FState { out: s.out + line_breaks(breaks_of(t)), indent: s.indent, at_start: true }
    } else {
        s
    }
}

/// Whether `e` is a token of kind `k`.
pub open spec fn tok_is(e: Element, k: SyntaxKind) -> bool {
    e matches Element::Token(t) && t.kind == k
}

/// The text of a token (empty for a node).
pub open spec fn tok_text(e: Element) -> Seq<char> {
    match e {
        Element::Token(t) => t.text@,
        Element::Node(_) => Seq::empty(),
    }
}

/// A space when `cond`.
pub open spec fn space_if(s: FState, cond: bool) -> FState {
    if cond {
        s_space(s)
    } else {
        s
    }
}

/// Writing an element: a token's text, or the node laid out.
pub open spec fn f_child(s: FState, e: Element) -> FState
    decreases e, 4int, 0int,
{
    match e {
        Element::Token(t) => s_emit(s, t.text@),
        Element::Node(n) => f_walk(s, n),
    }
}

/// Laying out a node according to its kind.
pub open spec fn f_walk(s: FState, n: Node) -> FState
    decreases n, 3int, 0int,
{
    let k = n.kind;
    if k == SyntaxKind::Root || k == SyntaxKind::Block {
        f_lines(s, n, 0, true)
    } else if k == SyntaxKind::BinaryExpr || k == SyntaxKind::RangeExpr {
        f_binary(s, n, 0, true)
    } else if k == SyntaxKind::UnaryExpr {
        f_unary(s, n, 0, 0, false)
    } else if k == SyntaxKind::AssignExpr {
        f_assign(s, n, 0, false, false)
    } else if k == SyntaxKind::ReturnExpr || k == SyntaxKind::TypeDecl || k == SyntaxKind::ExternDecl {
        f_spaced(s, n, 0, false, false)
    } else if k == SyntaxKind::CallExpr {
        f_call(s, n, 0)
    } else if k == SyntaxKind::NavExpr || k == SyntaxKind::GroupExpr || k == SyntaxKind::SpreadExpr {
        f_tight(s, n, 0)
    } else if k == SyntaxKind::CompoundExpr {
        f_compound(s, n, 0)
    } else if k == SyntaxKind::ConditionalExpr || k == SyntaxKind::ForExpr || k
        == SyntaxKind::WhileExpr {
        f_block_kw(s, n, 0, body_ml_from(n.children@, 0, false))
    } else if k == SyntaxKind::ElseBranch {
        f_else(s, n, 0, around_from(n.children@, 0, false), has_do(n))
    } else if k == SyntaxKind::ArrayExpr {
        f_array(s, n)
    } else if k == SyntaxKind::ObjectExpr {
        f_object(s, n)
    } else if k == SyntaxKind::ArrayComprehension || k == SyntaxKind::ObjectComprehension {
        f_comprehension(s, n)
    } else if k == SyntaxKind::Pair {
        f_pair(s, n, 0, false, false)
    } else if k == SyntaxKind::IterBinding {
        f_iter(s, n, 0, true)
    } else {
        s_emit(s, node_text(n))
    }
}

/// Whether a node has a `do` token among its children.
pub open spec fn has_do(n: Node) -> bool {
    exists|j: int| 0 <= j < n.children@.len() && tok_is(#[trigger] n.children@[j], SyntaxKind::KwDo)
}

/// Statements line by line from child `i` (`first`: nothing yet on the
/// line): whitespace becomes its line breaks (at most two), a line comment
/// ends its line, and items on one line are separated by single spaces.
pub open spec fn f_lines(s: FState, n: Node, i: int, first: bool) -> FState
    decreases n, 1int, n.children@.len() - i,
{
    if i < 0 || i >= n.children@.len() {
        s
    } else {
        let c = n.children@[i];
        proof {
            crate::format::lemma_child_decreases(n, i);
        }
        match c {
            Element::Token(t) => if t.kind == SyntaxKind::Whitespace {
                f_lines(s_breaks(s, t.text@), n, i + 1, if breaks_of(t.text@) > 0 {
                    true
                } else {
                    first
                })
            } else if t.kind == SyntaxKind::LineComment {
                f_lines(s_newline(s_emit(space_if(s, !first), trim_nl(t.text@))), n, i + 1, true)
            } else {
                f_lines(s_emit(space_if(s, !first), t.text@), n, i + 1, false)
            },
            Element::Node(_) => f_lines(f_child(space_if(s, !first), c), n, i + 1, false),
        }
    }
}

/// Binary operators and ranges: one space between the significant parts.
pub open spec fn f_binary(s: FState, n: Node, i: int, first: bool) -> FState
    decreases n, 1int, n.children@.len() - i,
{
    if i < 0 || i >= n.children@.len() {
        s
    } else {
        let c = n.children@[i];
        proof {
            crate::format::lemma_child_decreases(n, i);
        }
        if keeps(1, c) {
            f_binary(f_child(space_if(s, !first), c), n, i + 1, false)
        } else {
            f_binary(s, n, i + 1, first)
        }
    }
}

/// Prefix operators: a space after `delete`, none after a symbol (`j`
/// counts the parts written, up to two; `del`: the first was `delete`).
pub open spec fn f_unary(s: FState, n: Node, i: int, j: int, del: bool) -> FState
    decreases n, 1int, n.children@.len() - i,
{
    if i < 0 || i >= n.children@.len() {
        s
    } else {
        let c = n.children@[i];
        proof {
            crate::format::lemma_child_decreases(n, i);
        }
        if keeps(1, c) {
            let del2 = if j == 0 {
                tok_is(c, SyntaxKind::KwDelete)
            } else {
                del
            };
            f_unary(
                f_child(space_if(s, j == 1 && del), c),
                n,
                i + 1,
                if j < 2 {
                    j + 1
                } else {
                    j
                },
                del2,
            )
        } else {
            f_unary(s, n, i + 1, j, del)
        }
    }
}

/// Assignments: `x = 1`, `x: T = 1`, `x += 1` (`ap`: just after `:` or an
/// assignment operator; `started`: something written).
pub open spec fn f_assign(s: FState, n: Node, i: int, ap: bool, started: bool) -> FState
    decreases n, 1int, n.children@.len() - i,
{
    if i < 0 || i >= n.children@.len() {
        s
    } else {
        let c = n.children@[i];
        proof {
            crate::format::lemma_child_decreases(n, i);
        }
        if keeps(1, c) {
            if tok_is(c, SyntaxKind::Colon) {
                f_assign(s_space(f_child(s, c)), n, i + 1, true, true)
            } else if c is Token && assign_op(c->Token_0.kind) {
                f_assign(s_space(f_child(s_space(s), c)), n, i + 1, true, true)
            } else {
                f_assign(f_child(space_if(s, started && !ap), c), n, i + 1, false, true)
            }
        } else {
            f_assign(s, n, i + 1, ap, started)
        }
    }
}

/// `return`, type and extern declarations: spaces between the parts, `:`
/// tight, ` = `, ` -> `, ` in `, ` of ` spaced, `, ` after commas.
pub open spec fn f_spaced(s: FState, n: Node, i: int, ap: bool, started: bool) -> FState
    decreases n, 1int, n.children@.len() - i,
{
    if i < 0 || i >= n.children@.len() {
        s
    } else {
        let c = n.children@[i];
        proof {
            crate::format::lemma_child_decreases(n, i);
        }
        if keeps(1, c) {
            if tok_is(c, SyntaxKind::Colon) {
                f_spaced(f_child(s, c), n, i + 1, true, true)
            } else if tok_is(c, SyntaxKind::Eq) || tok_is(c, SyntaxKind::Arrow) || tok_is(
                c,
                SyntaxKind::KwIn,
            ) || tok_is(c, SyntaxKind::KwOf) {
                f_spaced(s_space(f_child(s_space(s), c)), n, i + 1, true, true)
            } else if tok_is(c, SyntaxKind::Comma) {
                f_spaced(s_space(f_child(s, c)), n, i + 1, true, true)
            } else {
                f_spaced(f_child(space_if(s, started && !ap), c), n, i + 1, false, true)
            }
        } else {
            f_spaced(s, n, i + 1, ap, started)
        }
    }
}

/// Calls: tight, with a space after each comma.
pub open spec fn f_call(s: FState, n: Node, i: int) -> FState
    decreases n, 1int, n.children@.len() - i,
{
    if i < 0 || i >= n.children@.len() {
        s
    } else {
        let c = n.children@[i];
        proof {
            crate::format::lemma_child_decreases(n, i);
        }
        if keeps(1, c) {
            f_call(space_if(f_child(s, c), tok_is(c, SyntaxKind::Comma)), n, i + 1)
        } else {
            f_call(s, n, i + 1)
        }
    }
}

/// Sequences: a space after each `;`, nothing else between.
pub open spec fn f_compound(s: FState, n: Node, i: int) -> FState
    decreases n, 1int, n.children@.len() - i,
{
    if i < 0 || i >= n.children@.len() {
        s
    } else {
        let c = n.children@[i];
        proof {
            crate::format::lemma_child_decreases(n, i);
        }
        if keeps(1, c) {
            f_compound(space_if(f_child(s, c), tok_is(c, SyntaxKind::Semicolon)), n, i + 1)
        } else {
            f_compound(s, n, i + 1)
        }
    }
}

/// Navigation, groups and spreads: no spaces.
pub open spec fn f_tight(s: FState, n: Node, i: int) -> FState
    decreases n, 1int, n.children@.len() - i,
{
    if i < 0 || i >= n.children@.len() {
        s
    } else {
        let c = n.children@[i];
        proof {
            crate::format::lemma_child_decreases(n, i);
        }
        if keeps(1, c) {
            f_tight(f_child(s, c), n, i + 1)
        } else {
            f_tight(s, n, i + 1)
        }
    }
}

/// Pairs: `key:value` (`after`: just after the colon).
pub open spec fn f_pair(s: FState, n: Node, i: int, after: bool, started: bool) -> FState
    decreases n, 1int, n.children@.len() - i,
{
    if i < 0 || i >= n.children@.len() {
        s
    } else {
        let c = n.children@[i];
        proof {
            crate::format::lemma_child_decreases(n, i);
        }
        if keeps(1, c) {
            if tok_is(c, SyntaxKind::Colon) {
                f_pair(f_child(s, c), n, i + 1, true, true)
            } else {
                f_pair(f_child(space_if(s, started && !after), c), n, i + 1, false, true)
            }
        } else {
            f_pair(s, n, i + 1, after, started)
        }
    }
}

/// Iteration bindings: names separated by spaces, ` in `/` of ` spaced,
/// commas dropped.
pub open spec fn f_iter(s: FState, n: Node, i: int, first: bool) -> FState
    decreases n, 1int, n.children@.len() - i,
{
    if i < 0 || i >= n.children@.len() {
        s
    } else {
        let c = n.children@[i];
        proof {
            crate::format::lemma_child_decreases(n, i);
        }
        if keeps(2, c) {
            if tok_is(c, SyntaxKind::KwIn) || tok_is(c, SyntaxKind::KwOf) {
                f_iter(s_space(f_child(s_space(s), c)), n, i + 1, true)
            } else {
                f_iter(f_child(space_if(s, !first), c), n, i + 1, false)
            }
        } else {
            f_iter(s, n, i + 1, first)
        }
    }
}

/// `when`/`unless`, `for` and `while` from child `i`: the body goes on lines
/// of its own, one level deeper, when it spans lines (`ml`), else stays on
/// the line.
pub open spec fn f_block_kw(s: FState, n: Node, i: int, ml: bool) -> FState
    decreases n, 1int, n.children@.len() - i,
{
    if i < 0 || i >= n.children@.len() {
        s
    } else {
        let c = n.children@[i];
        proof {
            crate::format::lemma_child_decreases(n, i);
        }
        match c {
            Element::Token(t) => {
                let k = t.kind;
                let s2 = if k == SyntaxKind::Whitespace {
                    s
                } else if k == SyntaxKind::LineComment {
                    let s1 = s_emit(s_space(s), trim_nl(t.text@));
                    if ml {
                        s_newline(s1)
                    } else {
                        s1
                    }
                } else if k == SyntaxKind::BlockComment {
                    s_emit(s_space(s), t.text@)
                } else if k == SyntaxKind::KwWhen || k == SyntaxKind::KwUnless || k
                    == SyntaxKind::KwFor || k == SyntaxKind::KwWhile {
                    s_space(s_emit(s, t.text@))
                } else if k == SyntaxKind::KwDo {
                    let s1 = s_emit(s_space(s), t.text@);
                    if ml {
                        s_newline(s_more(s1))
                    } else {
                        s_space(s1)
                    }
                } else if k == SyntaxKind::KwEnd {
                    let s1 = if ml {
                        s_newline(s_less(s))
                    } else {
                        s_space(s)
                    };
                    s_emit(s1, t.text@)
                } else {
                    s_emit(s, t.text@)
                };
                f_block_kw(s2, n, i + 1, ml)
            },
            Element::Node(m) => {
                proof {
                    crate::format::lemma_grandchild_decreases(n, i, m);
                }
                let s2 = if m.kind == SyntaxKind::ElseBranch {
                    f_else(s, m, 0, around_from(m.children@, 0, false), has_do(m))
                } else if m.kind == SyntaxKind::Block {
                    f_lines(s, m, 0, true)
                } else {
                    f_walk(s, m)
                };
                f_block_kw(s2, n, i + 1, ml)
            },
        }
    }
}

/// `else [when c do] block` from child `i`: `else` goes back one level on a
/// line of its own; the block goes on lines of its own when `ml`.
pub open spec fn f_else(s: FState, n: Node, i: int, ml: bool, has_do: bool) -> FState
    decreases n, 1int, n.children@.len() - i,
{
    if i < 0 || i >= n.children@.len() {
        s
    } else {
        let c = n.children@[i];
        proof {
            crate::format::lemma_child_decreases(n, i);
        }
        if !keeps(1, c) {
            f_else(s, n, i + 1, ml, has_do)
        } else {
            match c {
                Element::Token(t) => {
                    let k = t.kind;
                    let s2 = if k == SyntaxKind::KwElse {
                        s_emit(s_newline(s_less(s)), t.text@)
                    } else if k == SyntaxKind::KwWhen || k == SyntaxKind::KwUnless {
                        s_space(s_emit(s_space(s), t.text@))
                    } else if k == SyntaxKind::KwDo {
                        let s1 = s_emit(s_space(s), t.text@);
                        if ml {
                            s_newline(s_more(s1))
                        } else {
                            s_space(s1)
                        }
                    } else {
                        s_emit(s, t.text@)
                    };
                    f_else(s2, n, i + 1, ml, has_do)
                },
                Element::Node(m) => {
                    proof {
                        crate::format::lemma_grandchild_decreases(n, i, m);
                    }
                    let s2 = if m.kind == SyntaxKind::Block {
                        let s1 = if has_do {
                            s
                        } else if ml {
                            s_newline(s_more(s))
                        } else {
                            s_space(s)
                        };
                        f_lines(s1, m, 0, true)
                    } else {
                        f_walk(s, m)
                    };
                    f_else(s2, n, i + 1, ml, has_do)
                },
            }
        }
    }
}

/// One token of a multi-line array, object or comprehension: brackets open
/// and close a level (with a space after an opening bracket not followed
/// by a line break, and before a closing one not at the start of a line),
/// whitespace becomes its line breaks, line comments end their line, and
/// commas and `#` go (`comp`: in a comprehension, where `#` stays and
/// `for`, `while`, `in`, `of` and `:` are followed by a space).
pub open spec fn ml_token(s: FState, n: Node, i: int, t: crate::syntax::Token, comp: bool) -> FState {
    let k = t.kind;
    if k == SyntaxKind::Whitespace {
        s_breaks(s, t.text@)
    } else if k == SyntaxKind::LineComment {
        s_newline(s_emit(s, trim_nl(t.text@)))
    } else if k == SyntaxKind::BlockComment {
        s_emit(s, t.text@)
    } else if !comp && (k == SyntaxKind::Comma || k == SyntaxKind::Hash) {
        s
    } else if k == SyntaxKind::LBracket || k == SyntaxKind::LBrace {
        space_if(
            s_more(s_emit(s, t.text@)),
            !(i + 1 < n.children@.len() && newline_token(n.children@[i + 1])),
        )
    } else if k == SyntaxKind::RBracket || k == SyntaxKind::RBrace {
        let s1 = s_less(s);
        s_emit(space_if(s1, !s1.at_start), t.text@)
    } else if comp && k == SyntaxKind::Comma {
        s
    } else if comp && (k == SyntaxKind::KwFor || k == SyntaxKind::KwWhile || k == SyntaxKind::KwIn
        || k == SyntaxKind::KwOf || k == SyntaxKind::Colon) {
        s_space(s_emit(s, t.text@))
    } else {
        s_emit(s, t.text@)
    }
}

/// Multi-line arrays, objects (`comp` false) and comprehensions (`comp`
/// true) from child `i`: laid out like the source (see `ml_token`).
pub open spec fn f_multiline(s: FState, n: Node, i: int, comp: bool) -> FState
    decreases n, 1int, n.children@.len() - i,
{
    if i < 0 || i >= n.children@.len() {
        s
    } else {
        let c = n.children@[i];
        proof {
            crate::format::lemma_child_decreases(n, i);
        }
        match c {
            Element::Token(t) => f_multiline(ml_token(s, n, i, t, comp), n, i + 1, comp),
            Element::Node(_) => f_multiline(
                if keeps(
                    if comp {
                        7
                    } else {
                        5
                    },
                    c,
                ) {
                    f_child(s, c)
                } else {
                    s
                },
                n,
                i + 1,
                comp,
            ),
        }
    }
}

/// The items of a one-line array from child `i`: separated by `, ` when the
/// source had commas (`commas`), else by a space.
pub open spec fn f_array_items(s: FState, n: Node, i: int, started: bool, commas: bool) -> FState
    decreases n, 1int, n.children@.len() - i,
{
    if i < 0 || i >= n.children@.len() {
        s
    } else {
        let c = n.children@[i];
        proof {
            crate::format::lemma_child_decreases(n, i);
        }
        if keeps(3, c) {
            let s1 = if started {
                s_space(
                    if commas {
                        s_emit(s, seq![','])
                    } else {
                        s
                    },
                )
            } else {
                s
            };
            f_array_items(f_child(s1, c), n, i + 1, true, commas)
        } else {
            f_array_items(s, n, i + 1, started, commas)
        }
    }
}

/// Arrays: `[ a, b ]`, `[ a b ]` or `[]` on one line, else laid out like the
/// source.
pub open spec fn f_array(s: FState, n: Node) -> FState
    decreases n, 2int, 0int,
{
    if is_multiline_text(node_text(n)) {
        f_multiline(s, n, 0, false)
    } else {
        let any = kept_count(n.children@, 3) > 0;
        let s1 = space_if(s_emit(s, seq!['[']), any);
        let s2 = f_array_items(s1, n, 0, false, has_comma(n.children@));
        s_emit(space_if(s2, any), seq![']'])
    }
}

/// The pairs of a one-line object from child `i`, separated by spaces.
pub open spec fn f_object_items(s: FState, n: Node, i: int, started: bool) -> FState
    decreases n, 1int, n.children@.len() - i,
{
    if i < 0 || i >= n.children@.len() {
        s
    } else {
        let c = n.children@[i];
        proof {
            crate::format::lemma_child_decreases(n, i);
        }
        if keeps(4, c) {
            f_object_items(f_child(space_if(s, started), c), n, i + 1, true)
        } else {
            f_object_items(s, n, i + 1, started)
        }
    }
}

/// Objects: `{ a:1 b:2 }` or `{}` on one line, else laid out like the source.
pub open spec fn f_object(s: FState, n: Node) -> FState
    decreases n, 2int, 0int,
{
    if is_multiline_text(node_text(n)) {
        f_multiline(s, n, 0, false)
    } else {
        let any = kept_count(n.children@, 4) > 0;
        let s1 = space_if(s_emit(s, seq!['{']), any);
        let s2 = f_object_items(s1, n, 0, false);
        s_emit(space_if(s2, any), seq!['}'])
    }
}

/// The parts of a one-line comprehension from child `i`: spaces between,
/// `:` followed by a space.
pub open spec fn f_comp_items(s: FState, n: Node, i: int, after: bool, started: bool) -> FState
    decreases n, 1int, n.children@.len() - i,
{
    if i < 0 || i >= n.children@.len() {
        s
    } else {
        let c = n.children@[i];
        proof {
            crate::format::lemma_child_decreases(n, i);
        }
        if keeps(6, c) {
            if tok_is(c, SyntaxKind::Colon) {
                f_comp_items(s_space(f_child(s, c)), n, i + 1, true, true)
            } else {
                f_comp_items(f_child(space_if(s, started && !after), c), n, i + 1, false, true)
            }
        } else {
            f_comp_items(s, n, i + 1, after, started)
        }
    }
}

/// Comprehensions: `[ e for v in xs ]` (or with braces) on one line, else
/// laid out like the source.
pub open spec fn f_comprehension(s: FState, n: Node) -> FState
    decreases n, 2int, 0int,
{
    if is_multiline_text(node_text(n)) {
        f_multiline(s, n, 0, true)
    } else {
        let arr = n.kind == SyntaxKind::ArrayComprehension;
        let open = if arr {
            '['
        } else {
            '{'
        };
        let close = if arr {
            ']'
        } else {
            '}'
        };
        let s1 = f_comp_items(s_space(s_emit(s, seq![open])), n, 0, false, false);
        s_emit(s_space(s1), seq![close])
    }
}

/// The empty state a layout starts from.
pub open spec fn start_state() -> FState {
    FState { out: Seq::empty(), indent: 0, at_start: true }
}

/// The text that `format` makes of the tree `root`: the layout of the tree,
/// without its trailing line breaks, and one line break.
pub open spec fn format_v(root: Node) -> Seq<char> {
    trim_nl(f_walk(start_state(), root).out).push('\n')
}

/// Text that starts a line is indented two spaces per level.
pub proof fn law_line_start_indented(s: FState, t: Seq<char>)
    requires
        s.at_start,
        t.len() > 0,
        s.indent >= 0,
    ensures
        s_emit(s, t).out == s.out + Seq::new((2 * s.indent) as nat, |i: int| ' ') + t,
        !s_emit(s, t).at_start,
        s_emit(s, t).indent == s.indent,
{
}

/// After the `do` of a multi-line `else when`/`else unless` branch, the rest
/// of the branch starts on a new line one level deeper than the `else`
/// line: the text so far gains ` do` and a line break, and the level grows
/// by one.
pub proof fn law_else_do_indents(s: FState, n: Node, i: int, has_do: bool)
    requires
        0 <= i < n.children@.len(),
        n.children@[i] matches Element::Token(t) && t.kind == SyntaxKind::KwDo && t.text@.len() > 0,
        0 <= s.indent < usize::MAX,
    ensures
        ({
            let t = n.children@[i]->Token_0;
            f_else(s, n, i, true, has_do) == f_else(
                FState {
                    out: s_start(s).out + seq![' '] + t.text@ + seq!['\n'],
                    indent: s.indent + 1,
                    at_start: true,
                },
                n,
                i + 1,
                true,
                has_do,
            )
        }),
{
    let t = n.children@[i]->Token_0;
    assert(keeps(1, n.children@[i]));
    let s1 = s_emit(s_space(s), t.text@);
    assert(s1.out =~= s_start(s).out + seq![' '] + t.text@);
    assert(s_newline(s_more(s1)).out =~= s_start(s).out + seq![' '] + t.text@ + seq!['\n']);
}

} // verus!
