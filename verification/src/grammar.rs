//! The grammar of Rex as spec functions: what tree the parser builds.
//!
//! A tree is described by its outline, a flat sequence of events: `Open`
//! of a node's kind, the events of its children, `Close`; a token is one
//! `Leaf`. Each spec function below reads token views from a position and
//! gives the outline of what it recognises and the position after it.
//! The parser's functions are proved to build exactly these outlines.

use vstd::prelude::*;
use crate::syntax::{Element, Node, SyntaxKind, Token, is_keyword_kind};
use crate::parser::{first_sig, next_is_v, level_op, assign_op, atom_kind, sequence_end};

verus! {

/// One step of a tree's outline.
pub enum Ev {
    Open(SyntaxKind),
    Leaf(SyntaxKind, Seq<char>),
    Close,
}

/// The outline of an element.
pub open spec fn shape(e: Element) -> Seq<Ev>
    decreases e, 1nat,
{
    match e {
        Element::Token(t) => seq![Ev::Leaf(t.kind, t.text@)],
        Element::Node(n) => seq![Ev::Open(n.kind)] + shape_all(n.children@) + seq![Ev::Close],
    }
}

/// The outline of a sequence of elements.
pub open spec fn shape_all(es: Seq<Element>) -> Seq<Ev>
    decreases es, 0nat,
{
    if es.len() == 0 {
        Seq::empty()
    } else {
        proof {
            assert(decreases_to!(es => es.drop_last()));
        }
        shape_all(es.drop_last()) + shape(es.last())
    }
}

/// Adding one element adds its outline at the end.
pub proof fn lemma_shape_all_push(es: Seq<Element>, e: Element)
    ensures
        shape_all(es.push(e)) == shape_all(es) + shape(e),
{
    assert(es.push(e).drop_last() =~= es);
}

/// The outline of a node is its kind, its children's outline, and `Close`.
pub proof fn lemma_shape_node(n: Node)
    ensures
        shape(Element::Node(n)) == node_ev(n.kind, shape_all(n.children@)),
{
    let e = Element::Node(n);
    assert(e matches Element::Node(m) && m == n);
}

/// The outline of a token is one leaf.
pub proof fn lemma_shape_token(t: Token)
    ensures
        shape(Element::Token(t)) == seq![Ev::Leaf(t.kind, t.text@)],
{
    let e = Element::Token(t);
    assert(e matches Element::Token(u) && u == t);
}

/// The outline of a node of `kind` whose children have outline `body`.
pub open spec fn node_ev(kind: SyntaxKind, body: Seq<Ev>) -> Seq<Ev> {
    seq![Ev::Open(kind)] + body + seq![Ev::Close]
}

/// The leaves of the tokens from `a` to `b`.
pub open spec fn tev(v: Seq<(SyntaxKind, Seq<char>)>, a: int, b: int) -> Seq<Ev> {
    Seq::new((b - a) as nat, |i: int| Ev::Leaf(v[a + i].0, v[a + i].1))
}

/// Adjacent runs of leaves join.
pub broadcast proof fn lemma_tev_join(v: Seq<(SyntaxKind, Seq<char>)>, a: int, b: int, c: int)
    requires
        a <= b <= c,
    ensures
        #[trigger] (tev(v, a, b) + tev(v, b, c)) == tev(v, a, c),
{
    assert(tev(v, a, b) + tev(v, b, c) =~= tev(v, a, c));
}

/// The trivia from `p` up to the next significant token, if that token has
/// kind `k`, and the token itself.
pub open spec fn g_eat(v: Seq<(SyntaxKind, Seq<char>)>, p: int, k: SyntaxKind) -> (Seq<Ev>, int) {
    if next_is_v(v, p, k) {
        (tev(v, p, first_sig(v, p) + 1), first_sig(v, p) + 1)
    } else {
        (Seq::empty(), p)
    }
}

/// The trivia from `p` and one expression at `level`.
pub open spec fn g_sub(v: Seq<(SyntaxKind, Seq<char>)>, p: int, level: int) -> (Seq<Ev>, int)
    decreases v.len() - p, 2 * level + 1,
{
    let q = first_sig(v, p);
    if 0 <= p <= q <= v.len() && 1 <= level <= 12 {
        let (e, r) = g_level(v, q, level);
        (tev(v, p, q) + e, r)
    } else {
        (Seq::empty(), p)
    }
}

/// An expression at precedence `level` (12 sequences down to 1 primaries).
pub open spec fn g_level(v: Seq<(SyntaxKind, Seq<char>)>, pos: int, level: int) -> (Seq<Ev>, int)
    decreases v.len() - pos, 2 * level,
{
    if level < 1 || level > 12 {
        (Seq::empty(), pos)
    } else if level == 12 {
        g_compound(v, pos)
    } else if level == 11 {
        g_assign(v, pos)
    } else if level >= 4 {
        g_binary(v, pos, level)
    } else if level == 3 {
        g_unary(v, pos)
    } else if level == 2 {
        g_postfix(v, pos)
    } else {
        g_primary(v, pos)
    }
}

/// Expressions separated by `;`.
pub open spec fn g_compound(v: Seq<(SyntaxKind, Seq<char>)>, pos: int) -> (Seq<Ev>, int)
    decreases v.len() - pos, 23int,
{
    let (first, p0) = g_level(v, pos, 11);
    if !next_is_v(v, p0, SyntaxKind::Semicolon) || !(pos <= p0 <= v.len()) {
        (first, p0)
    } else {
        let (body, pe) = g_cloop(v, p0, first);
        (node_ev(SyntaxKind::CompoundExpr, body), pe)
    }
}

/// The rest of a `;`-separated sequence from `p`, after the outline `acc`.
pub open spec fn g_cloop(v: Seq<(SyntaxKind, Seq<char>)>, p: int, acc: Seq<Ev>) -> (Seq<Ev>, int)
    decreases v.len() - p, 0int,
{
    let j = first_sig(v, p);
    if !(0 <= p <= j && j < v.len() && v[j].0 == SyntaxKind::Semicolon) {
        (acc, p)
    } else {
        let acc1 = acc + tev(v, p, j + 1);
        let p1 = j + 1;
        let j2 = first_sig(v, p1);
        if p1 <= j2 && j2 < v.len() && !sequence_end(v[j2].0) {
            let (e, p2) = g_sub(v, p1, 11);
            if p1 < p2 <= v.len() {
                g_cloop(v, p2, acc1 + e)
            } else {
                (acc1 + e, p2)
            }
        } else {
            g_cloop(v, p1, acc1)
        }
    }
}

/// Assignments, typed declarations and compound assignments.
pub open spec fn g_assign(v: Seq<(SyntaxKind, Seq<char>)>, pos: int) -> (Seq<Ev>, int)
    decreases v.len() - pos, 21int,
{
    let (lhs, p) = g_level(v, pos, 10);
    let j = first_sig(v, p);
    let found = 0 <= pos <= p <= j && j < v.len();
    let typed = found && v[j].0 == SyntaxKind::Colon;
    let assigning = found && assign_op(v[j].0);
    if !typed && !assigning {
        (lhs, p)
    } else {
        let acc = lhs + tev(v, p, j + 1);
        let p1 = j + 1;
        if typed {
            let (e, q) = g_sub(v, p1, 10);
            let acc2 = acc + e;
            let j2 = first_sig(v, q);
            if p1 <= q <= j2 && j2 < v.len() && assign_op(v[j2].0) {
                let (e2, q2) = g_sub(v, j2 + 1, 11);
                (node_ev(SyntaxKind::AssignExpr, acc2 + tev(v, q, j2 + 1) + e2), q2)
            } else {
                (node_ev(SyntaxKind::AssignExpr, acc2), q)
            }
        } else {
            let (e, q) = g_sub(v, p1, 11);
            (node_ev(SyntaxKind::AssignExpr, acc + e), q)
        }
    }
}

/// Left-associative binary operators at `level` (4 to 10); ranges do not chain.
pub open spec fn g_binary(v: Seq<(SyntaxKind, Seq<char>)>, pos: int, level: int) -> (Seq<Ev>, int)
    decreases v.len() - pos, 2 * level - 1,
{
    if level < 4 || level > 10 {
        (Seq::empty(), pos)
    } else {
        let (first, p0) = g_level(v, pos, level - 1);
        if pos <= p0 <= v.len() {
            g_bloop(v, p0, level, first)
        } else {
            (first, p0)
        }
    }
}

/// The rest of a chain of binary operators from `p`, with left operand `lhs`.
pub open spec fn g_bloop(v: Seq<(SyntaxKind, Seq<char>)>, p: int, level: int, lhs: Seq<Ev>) -> (Seq<Ev>, int)
    decreases v.len() - p, 0int,
{
    let j = first_sig(v, p);
    if !(0 <= p <= j && j < v.len() && level_op(level, v[j].0)) {
        (lhs, p)
    } else {
        let (e, q) = g_sub(v, j + 1, level - 1);
        let kind = if level == 7 {
            SyntaxKind::RangeExpr
        } else {
            SyntaxKind::BinaryExpr
        };
        let nl = node_ev(kind, lhs + tev(v, p, j + 1) + e);
        if level == 7 || !(j + 1 <= q <= v.len()) {
            (nl, q)
        } else {
            g_bloop(v, q, level, nl)
        }
    }
}

/// Prefix `-`, `~`, `not` and `delete`.
pub open spec fn g_unary(v: Seq<(SyntaxKind, Seq<char>)>, pos: int) -> (Seq<Ev>, int)
    decreases v.len() - pos, 5int,
{
    let prefix = 0 <= pos < v.len() && (v[pos].0 == SyntaxKind::Minus || v[pos].0
        == SyntaxKind::Tilde || v[pos].0 == SyntaxKind::KwDelete || v[pos].0 == SyntaxKind::KwNot);
    if !prefix {
        g_level(v, pos, 2)
    } else {
        let (e, q) = g_sub(v, pos + 1, 3);
        (node_ev(SyntaxKind::UnaryExpr, tev(v, pos, pos + 1) + e), q)
    }
}

/// Calls, navigation and tagged templates after a primary.
pub open spec fn g_postfix(v: Seq<(SyntaxKind, Seq<char>)>, pos: int) -> (Seq<Ev>, int)
    decreases v.len() - pos, 3int,
{
    let ident = 0 <= pos < v.len() && v[pos].0 == SyntaxKind::Ident;
    let (first, p0) = g_level(v, pos, 1);
    if pos <= p0 <= v.len() {
        g_ploop(v, p0, first, ident)
    } else {
        (first, p0)
    }
}

/// Which postfix form starts at `p`: 1 a call, 2 `.key`, 3 `.(e)`, 4 a
/// tagged template (only right after an identifier), 0 none.
pub open spec fn postfix_action(v: Seq<(SyntaxKind, Seq<char>)>, p: int, ident: bool) -> int {
    if !(0 <= p < v.len()) {
        0
    } else if v[p].0 == SyntaxKind::LParen {
        1
    } else if v[p].0 == SyntaxKind::Dot && p + 1 < v.len() && (v[p + 1].0 == SyntaxKind::Ident
        || v[p + 1].0 == SyntaxKind::DecimalNumber || is_keyword_kind(v[p + 1].0)) {
        2
    } else if v[p].0 == SyntaxKind::DotParen {
        3
    } else if v[p].0 == SyntaxKind::TemplateLiteral && ident {
        4
    } else {
        0
    }
}

/// The rest of a postfix chain from `p`, with operand `lhs`.
pub open spec fn g_ploop(v: Seq<(SyntaxKind, Seq<char>)>, p: int, lhs: Seq<Ev>, ident: bool) -> (Seq<Ev>, int)
    decreases v.len() - p, 0int,
{
    let action = postfix_action(v, p, ident);
    if action == 0 {
        (lhs, p)
    } else if action == 1 {
        let (body, q) = g_args(v, p + 1, lhs + tev(v, p, p + 1));
        let nl = node_ev(SyntaxKind::CallExpr, body);
        if p < q <= v.len() {
            g_ploop(v, q, nl, false)
        } else {
            (nl, q)
        }
    } else if action == 2 {
        g_ploop(v, p + 2, node_ev(SyntaxKind::NavExpr, lhs + tev(v, p, p + 2)), false)
    } else if action == 3 {
        let acc = lhs + tev(v, p, p + 1);
        let (acc2, q) = if next_is_v(v, p + 1, SyntaxKind::RParen) {
            (acc, p + 1)
        } else {
            let (e, q1) = g_sub(v, p + 1, 11);
            (acc + e, q1)
        };
        let (e2, q2) = g_eat(v, q, SyntaxKind::RParen);
        let nl = node_ev(SyntaxKind::NavExpr, acc2 + e2);
        if p < q2 <= v.len() {
            g_ploop(v, q2, nl, false)
        } else {
            (nl, q2)
        }
    } else {
        g_ploop(v, p + 1, node_ev(SyntaxKind::TemplateExpr, lhs + tev(v, p, p + 1)), false)
    }
}

/// The arguments of a call from `q` up to and including `)`.
pub open spec fn g_args(v: Seq<(SyntaxKind, Seq<char>)>, q: int, acc: Seq<Ev>) -> (Seq<Ev>, int)
    decreases v.len() - q, 30int,
{
    let j = first_sig(v, q);
    if !(0 <= q <= j && j < v.len()) {
        (acc, q)
    } else if v[j].0 == SyntaxKind::RParen {
        (acc + tev(v, q, j + 1), j + 1)
    } else if v[j].0 == SyntaxKind::Comma {
        g_args(v, j + 1, acc + tev(v, q, j + 1))
    } else if v[j].0 == SyntaxKind::DotDotDot {
        let (e, q2) = g_spread(v, j, 11);
        let acc1 = acc + tev(v, q, j) + e;
        if j < q2 <= v.len() {
            g_args(v, q2, acc1)
        } else {
            (acc1, q2)
        }
    } else {
        let (e, q2) = g_sub(v, q, 11);
        if q < q2 <= v.len() {
            g_args(v, q2, acc + e)
        } else {
            (acc + e, q2)
        }
    }
}

/// `...e`, with `e` at `level`, from the `...` at `q`.
pub open spec fn g_spread(v: Seq<(SyntaxKind, Seq<char>)>, q: int, level: int) -> (Seq<Ev>, int)
    decreases v.len() - q, 0int,
{
    if !(0 <= q < v.len()) {
        (Seq::empty(), q)
    } else {
        let (e, r) = g_sub(v, q + 1, level);
        (node_ev(SyntaxKind::SpreadExpr, tev(v, q, q + 1) + e), r)
    }
}

/// Atoms, groups, collections, `return` and the block constructs.
pub open spec fn g_primary(v: Seq<(SyntaxKind, Seq<char>)>, pos: int) -> (Seq<Ev>, int)
    decreases v.len() - pos, 1int,
{
    if !(0 <= pos < v.len()) {
        (node_ev(SyntaxKind::Error, Seq::empty()), pos)
    } else {
        let k = v[pos].0;
        if atom_kind(k) {
            (tev(v, pos, pos + 1), pos + 1)
        } else if k == SyntaxKind::KwWhen || k == SyntaxKind::KwUnless {
            g_construct(v, pos, 0)
        } else if k == SyntaxKind::KwFor {
            g_construct(v, pos, 1)
        } else if k == SyntaxKind::KwWhile {
            g_construct(v, pos, 2)
        } else if k == SyntaxKind::LBracket {
            g_collection(v, pos, true)
        } else if k == SyntaxKind::LBrace {
            g_collection(v, pos, false)
        } else if k == SyntaxKind::LParen {
            let acc = tev(v, pos, pos + 1);
            let (acc2, p2) = if next_is_v(v, pos + 1, SyntaxKind::RParen) {
                (acc, pos + 1)
            } else {
                let (e, q) = g_sub(v, pos + 1, 11);
                (acc + e, q)
            };
            let (e3, p3) = g_eat(v, p2, SyntaxKind::RParen);
            (node_ev(SyntaxKind::GroupExpr, acc2 + e3), p3)
        } else if k == SyntaxKind::KwReturn {
            let j = first_sig(v, pos + 1);
            let value = pos + 1 <= j && j < v.len() && !(v[j].0 == SyntaxKind::KwEnd || v[j].0
                == SyntaxKind::KwElse || v[j].0 == SyntaxKind::RParen || v[j].0
                == SyntaxKind::RBracket || v[j].0 == SyntaxKind::RBrace);
            if value {
                let (e, q) = g_sub(v, pos + 1, 11);
                (node_ev(SyntaxKind::ReturnExpr, tev(v, pos, pos + 1) + e), q)
            } else {
                (node_ev(SyntaxKind::ReturnExpr, tev(v, pos, pos + 1)), pos + 1)
            }
        } else {
            (node_ev(SyntaxKind::Error, tev(v, pos, pos + 1)), pos + 1)
        }
    }
}

/// The kind of node of a block construct: 0 `when`/`unless`, 1 `for`, 2 `while`.
pub open spec fn construct_kind(which: int) -> SyntaxKind {
    if which == 0 {
        SyntaxKind::ConditionalExpr
    } else if which == 1 {
        SyntaxKind::ForExpr
    } else {
        SyntaxKind::WhileExpr
    }
}

/// `when`/`unless`, `for` and `while` with their `do ... [else ...] end`.
pub open spec fn g_construct(v: Seq<(SyntaxKind, Seq<char>)>, pos: int, which: int) -> (Seq<Ev>, int)
    decreases v.len() - pos, 0int,
{
    let p = pos + 1;
    let acc = tev(v, pos, p);
    let (acc1, p1) = if which == 1 {
        let q = first_sig(v, p);
        if 0 <= pos < q <= v.len() {
            let (ib, q2) = g_iter(v, q);
            (acc + tev(v, p, q) + ib, q2)
        } else {
            (acc, p)
        }
    } else if 0 <= pos < v.len() {
        let (e, q) = g_sub(v, p, 12);
        (acc + e, q)
    } else {
        (acc, p)
    };
    let (e2, p2) = g_eat(v, p1, SyntaxKind::KwDo);
    let q3 = first_sig(v, p2);
    if !(0 <= pos < q3 <= v.len()) {
        (Seq::empty(), p)
    } else {
        let (blk, p4) = g_block(v, q3);
        let acc2 = acc1 + e2 + tev(v, p2, q3) + blk;
        let j = first_sig(v, p4);
        let (acc3, p5) = if which == 0 && pos < p4 <= j && j < v.len() && v[j].0
            == SyntaxKind::KwElse {
            let (eb, q) = g_else(v, j);
            (acc2 + tev(v, p4, j) + eb, q)
        } else {
            (acc2, p4)
        };
        let (e6, p6) = g_eat(v, p5, SyntaxKind::KwEnd);
        (node_ev(construct_kind(which), acc3 + e6), p6)
    }
}

/// `else [when|unless cond do] block [else ...]` from the `else` at `pos`.
pub open spec fn g_else(v: Seq<(SyntaxKind, Seq<char>)>, pos: int) -> (Seq<Ev>, int)
    decreases v.len() - pos, 0int,
{
    let p = pos + 1;
    let acc = tev(v, pos, p);
    let (acc1, p1) = if next_is_v(v, p, SyntaxKind::KwWhen) || next_is_v(v, p, SyntaxKind::KwUnless) {
        let q = first_sig(v, p);
        if 0 <= pos < q < v.len() {
            let (e, q2) = g_sub(v, q + 1, 11);
            let (e3, q3) = g_eat(v, q2, SyntaxKind::KwDo);
            (acc + tev(v, p, q + 1) + e + e3, q3)
        } else {
            (acc, p)
        }
    } else {
        (acc, p)
    };
    let q = first_sig(v, p1);
    if !(0 <= pos < q <= v.len()) {
        (Seq::empty(), p)
    } else {
        let (blk, p2) = g_block(v, q);
        let acc2 = acc1 + tev(v, p1, q) + blk;
        let j = first_sig(v, p2);
        if next_is_v(v, p2, SyntaxKind::KwElse) && pos < j {
            let (eb, p3) = g_else(v, j);
            (node_ev(SyntaxKind::ElseBranch, acc2 + tev(v, p2, j) + eb), p3)
        } else {
            (node_ev(SyntaxKind::ElseBranch, acc2), p2)
        }
    }
}

/// The statements of a block, up to `end`, `else` or the end of input.
pub open spec fn g_block(v: Seq<(SyntaxKind, Seq<char>)>, pos: int) -> (Seq<Ev>, int)
    decreases v.len() - pos, 27int,
{
    let (body, q) = g_blk(v, pos, Seq::empty());
    (node_ev(SyntaxKind::Block, body), q)
}

/// The rest of a block's statements from `q`, after the outline `acc`.
pub open spec fn g_blk(v: Seq<(SyntaxKind, Seq<char>)>, q: int, acc: Seq<Ev>) -> (Seq<Ev>, int)
    decreases v.len() - q, 26int,
{
    let j = first_sig(v, q);
    if !(0 <= q <= j && j < v.len()) || v[j].0 == SyntaxKind::KwEnd || v[j].0 == SyntaxKind::KwElse {
        (acc, q)
    } else {
        let (item, q2) = g_item(v, j);
        let acc1 = acc + tev(v, q, j) + item;
        if j < q2 <= v.len() {
            g_blk(v, q2, acc1)
        } else {
            (acc1, q2)
        }
    }
}

/// One statement: a type declaration, an extern declaration, or an expression.
pub open spec fn g_item(v: Seq<(SyntaxKind, Seq<char>)>, pos: int) -> (Seq<Ev>, int)
    decreases v.len() - pos, 25int,
{
    if !(0 <= pos < v.len()) {
        (Seq::empty(), pos)
    } else if v[pos].0 == SyntaxKind::KwType {
        let acc = tev(v, pos, pos + 1);
        let (e1, p1) = g_eat(v, pos + 1, SyntaxKind::Ident);
        let (e2, p2) = g_eat(v, p1, SyntaxKind::Eq);
        let j = first_sig(v, p2);
        if pos < p2 <= j && j < v.len() && v[j].0 != SyntaxKind::KwEnd && v[j].0 != SyntaxKind::KwElse {
            let (e3, p3) = g_sub(v, p2, 11);
            (node_ev(SyntaxKind::TypeDecl, acc + e1 + e2 + e3), p3)
        } else {
            (node_ev(SyntaxKind::TypeDecl, acc + e1 + e2), p2)
        }
    } else if v[pos].0 == SyntaxKind::KwExtern {
        let acc = tev(v, pos, pos + 1);
        let (e1, p1) = g_eat(v, pos + 1, SyntaxKind::DoubleString);
        let (e2, p2) = g_eat(v, p1, SyntaxKind::SingleString);
        let j = first_sig(v, p2);
        let mutable = j < v.len() && v[j].0 == SyntaxKind::Ident && v[j].1 == seq!['m', 'u', 't']
            && next_is_v(v, j + 1, SyntaxKind::Ident);
        let (e3, p3) = if mutable {
            g_eat(v, p2, SyntaxKind::Ident)
        } else {
            (Seq::empty(), p2)
        };
        let j3 = first_sig(v, p3);
        let (e4, p4) = if pos < p3 <= j3 && j3 < v.len() && v[j3].0 != SyntaxKind::KwEnd && v[j3].0
            != SyntaxKind::KwElse {
            g_sub(v, p3, 11)
        } else {
            (Seq::empty(), p3)
        };
        let (e5, p5) = if next_is_v(v, p4, SyntaxKind::Arrow) {
            let (ea, pa) = g_eat(v, p4, SyntaxKind::Arrow);
            let ja = first_sig(v, pa);
            if pos < pa <= ja && ja < v.len() {
                let (eb, pb) = g_sub(v, pa, 11);
                (ea + eb, pb)
            } else {
                (ea, pa)
            }
        } else {
            (Seq::empty(), p4)
        };
        (node_ev(SyntaxKind::ExternDecl, acc + e1 + e2 + e3 + e4 + e5), p5)
    } else {
        g_level(v, pos, 12)
    }
}

/// The binding of a `for` loop or comprehension: names, then `in`/`of` and
/// the iterable.
pub open spec fn g_iter(v: Seq<(SyntaxKind, Seq<char>)>, pos: int) -> (Seq<Ev>, int)
    decreases v.len() - pos, 24int,
{
    let (acc, q) = g_iloop(v, pos, Seq::empty());
    if next_is_v(v, q, SyntaxKind::KwIn) || next_is_v(v, q, SyntaxKind::KwOf) {
        let j = first_sig(v, q);
        if 0 <= pos <= q <= j && j < v.len() {
            let (e, r) = g_sub(v, j + 1, 11);
            (node_ev(SyntaxKind::IterBinding, acc + tev(v, q, j + 1) + e), r)
        } else {
            (node_ev(SyntaxKind::IterBinding, acc), q)
        }
    } else if q == pos {
        let (e, r) = g_sub(v, q, 11);
        (node_ev(SyntaxKind::IterBinding, acc + e), r)
    } else {
        (node_ev(SyntaxKind::IterBinding, acc), q)
    }
}

/// The names of a binding from `q`, after the outline `acc`.
pub open spec fn g_iloop(v: Seq<(SyntaxKind, Seq<char>)>, q: int, acc: Seq<Ev>) -> (Seq<Ev>, int)
    decreases v.len() - q, 0int,
{
    let j = first_sig(v, q);
    if 0 <= q <= j && j < v.len() && (v[j].0 == SyntaxKind::Ident || v[j].0 == SyntaxKind::Comma) {
        g_iloop(v, j + 1, acc + tev(v, q, j + 1))
    } else {
        (acc, q)
    }
}

/// `key: value` inside an object; a key may be `*` and may follow `mut`.
pub open spec fn g_pair(v: Seq<(SyntaxKind, Seq<char>)>, pos: int) -> (Seq<Ev>, int)
    decreases v.len() - pos, 6int,
{
    let jm = first_sig(v, pos + 1);
    let take_mut = 0 <= pos < v.len() && v[pos].0 == SyntaxKind::Ident && v[pos].1 == seq![
        'm',
        'u',
        't',
    ] && jm < v.len() && (v[jm].0 == SyntaxKind::Ident || v[jm].0 == SyntaxKind::Star);
    let (acc, q) = if take_mut {
        (tev(v, pos, pos + 1), pos + 1)
    } else {
        (Seq::<Ev>::empty(), pos)
    };
    let j = first_sig(v, q);
    let (acc1, q1) = if 0 <= q <= j && j < v.len() && v[j].0 == SyntaxKind::Star {
        (acc + tev(v, q, j + 1), j + 1)
    } else {
        let (e, r) = g_sub(v, q, 2);
        (acc + e, r)
    };
    if next_is_v(v, q1, SyntaxKind::Colon) {
        let (e2, q2) = g_eat(v, q1, SyntaxKind::Colon);
        let j2 = first_sig(v, q2);
        if pos < q2 <= j2 && j2 < v.len() && v[j2].0 != SyntaxKind::RBrace && v[j2].0
            != SyntaxKind::Comma {
            let (e3, q3) = g_sub(v, q2, 11);
            (node_ev(SyntaxKind::Pair, acc1 + e2 + e3), q3)
        } else {
            (node_ev(SyntaxKind::Pair, acc1 + e2), q2)
        }
    } else {
        (node_ev(SyntaxKind::Pair, acc1), q1)
    }
}

/// The trivia from `p` and one entry of a collection: a spread, else an
/// element (arrays) or a pair (objects).
pub open spec fn g_entry(v: Seq<(SyntaxKind, Seq<char>)>, p: int, is_array: bool) -> (Seq<Ev>, int)
    decreases v.len() - p, 26int,
{
    let j = first_sig(v, p);
    let spread = 0 <= p <= j && j < v.len() && v[j].0 == SyntaxKind::DotDotDot;
    if is_array && !spread {
        g_sub(v, p, 11)
    } else if !(0 <= p <= j <= v.len()) {
        (Seq::empty(), p)
    } else {
        let (e, r) = if spread {
            g_spread(v, j, 10)
        } else {
            g_pair(v, j)
        };
        (tev(v, p, j) + e, r)
    }
}

/// The closing bracket of an array or object.
pub open spec fn close_kind(is_array: bool) -> SyntaxKind {
    if is_array {
        SyntaxKind::RBracket
    } else {
        SyntaxKind::RBrace
    }
}

/// Arrays, objects and their comprehensions, from the opening bracket at `pos`.
pub open spec fn g_collection(v: Seq<(SyntaxKind, Seq<char>)>, pos: int, is_array: bool) -> (Seq<Ev>, int)
    decreases v.len() - pos, 0int,
{
    let close = close_kind(is_array);
    let plain = if is_array {
        SyntaxKind::ArrayExpr
    } else {
        SyntaxKind::ObjectExpr
    };
    let p = pos + 1;
    let acc = tev(v, pos, p);
    let j = first_sig(v, p);
    if !(0 <= pos && p <= j && j < v.len()) || v[j].0 == close {
        let (e, q) = g_eat(v, p, close);
        (node_ev(plain, acc + e), q)
    } else {
        let (e1, p1) = g_entry(v, p, is_array);
        let acc1 = acc + e1;
        let j1 = first_sig(v, p1);
        if pos < p1 <= j1 && j1 < v.len() && (v[j1].0 == SyntaxKind::KwFor || v[j1].0
            == SyntaxKind::KwWhile) {
            let acc2 = acc1 + tev(v, p1, j1 + 1);
            let p2 = j1 + 1;
            let (acc3, p3) = if v[j1].0 == SyntaxKind::KwFor {
                let q = first_sig(v, p2);
                if p2 <= q <= v.len() {
                    let (ib, q2) = g_iter(v, q);
                    (acc2 + tev(v, p2, q) + ib, q2)
                } else {
                    (acc2, p2)
                }
            } else {
                let (e, q2) = g_sub(v, p2, 11);
                (acc2 + e, q2)
            };
            let (e4, p4) = g_eat(v, p3, close);
            let kind = if is_array {
                SyntaxKind::ArrayComprehension
            } else {
                SyntaxKind::ObjectComprehension
            };
            (node_ev(kind, acc3 + e4), p4)
        } else if pos < p1 <= v.len() {
            let (body, p5) = g_colloop(v, p1, is_array, acc1);
            (node_ev(plain, body), p5)
        } else {
            (node_ev(plain, acc1), p1)
        }
    }
}

/// The rest of a collection's entries from `p`, after the outline `acc`.
pub open spec fn g_colloop(v: Seq<(SyntaxKind, Seq<char>)>, p: int, is_array: bool, acc: Seq<Ev>) -> (Seq<Ev>, int)
    decreases v.len() - p, 27int,
{
    let j = first_sig(v, p);
    if !(0 <= p <= j && j < v.len()) {
        (acc, p)
    } else if v[j].0 == close_kind(is_array) {
        let (e, q) = g_eat(v, p, close_kind(is_array));
        (acc + e, q)
    } else if v[j].0 == SyntaxKind::Comma {
        g_colloop(v, j + 1, is_array, acc + tev(v, p, j + 1))
    } else {
        let (e, q) = g_entry(v, p, is_array);
        if p < q <= v.len() {
            g_colloop(v, q, is_array, acc + e)
        } else {
            (acc + e, q)
        }
    }
}

/// The top-level statements from `p`, after the outline `acc`.
pub open spec fn g_top(v: Seq<(SyntaxKind, Seq<char>)>, p: int, acc: Seq<Ev>) -> Seq<Ev>
    decreases v.len() - p,
{
    let q = first_sig(v, p);
    if !(0 <= p <= q && q < v.len()) {
        acc + tev(v, p, q)
    } else {
        let (item, r) = g_item(v, q);
        if q < r <= v.len() {
            g_top(v, r, acc + tev(v, p, q) + item)
        } else {
            acc + tev(v, p, q) + item
        }
    }
}

/// The outline of the tree that the parser builds from the token views `v`:
/// a `Root` node over the top-level statements and the trivia between them.
#[verifier::opaque]
pub open spec fn parse_v(v: Seq<(SyntaxKind, Seq<char>)>) -> Seq<Ev> {
    node_ev(SyntaxKind::Root, g_top(v, 0, Seq::empty()))
}

} // verus!
