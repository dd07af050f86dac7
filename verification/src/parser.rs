//! The parser: tokens to a lossless concrete syntax tree.
//!
//! Every token, trivia included, ends up in the tree exactly once and in
//! source order. Trivia between the parts of a construct belongs to that
//! construct; trivia before or after it belongs to the enclosing node. Each
//! function here is proved to build the tree that the matching spec
//! function of the grammar (`crate::grammar`) describes.

use vstd::prelude::*;
use crate::syntax::{
    Element, Node, SyntaxKind, Token, is_trivia_kind, leaves, leaves_all, lemma_seg_join, seg, lemma_leaves_all_push,
    lemma_leaves_node, lemma_leaves_token, token_views, concat_texts,
};
use crate::lexer::lex;
use crate::grammar::{
    Ev, shape, shape_all, node_ev, tev, lemma_shape_all_push, lemma_shape_node, lemma_shape_token,
    g_eat, g_sub, g_level, g_compound, g_cloop, g_assign, g_binary, g_bloop, g_unary, g_postfix,
    g_ploop, g_args, g_spread, g_primary, g_construct, g_else, g_block, g_blk, g_item, g_iter,
    g_iloop, g_pair, g_entry, g_collection, g_colloop, g_top, parse_v, postfix_action,
    close_kind,
};

verus! {

broadcast use crate::syntax::lemma_seg_join_auto, crate::grammar::lemma_tev_join;

/// Whether `root` is the tree that the parser builds from the source `s`:
/// its outline is the grammar's (`parse_v`) over the lexer's tokens of `s`
/// (`lex_v`); so it is a `Root` node whose tokens, in order, are those
/// tokens, and whose text is `s`.
pub open spec fn is_parse_of(root: Node, s: Seq<char>) -> bool {
    &&& root.kind == SyntaxKind::Root
    &&& shape(Element::Node(root)) == parse_v(crate::lexer::lex_v(s))
    &&& leaves_all(root.children@) == crate::lexer::lex_v(s)
    &&& concat_texts(leaves_all(root.children@)) == s
}

/// Whether `pos` is at the end or at a token that is not trivia.
pub open spec fn at_sig(t: Seq<Token>, pos: int) -> bool {
    pos == t.len() || !is_trivia_kind(t[pos].kind)
}

proof fn lemma_seg_empty(t: Seq<Token>, a: int)
    requires
        0 <= a <= t.len(),
    ensures
        seg(t, a, a) == Seq::<(SyntaxKind, Seq<char>)>::empty(),
{
    assert(seg(t, a, a) =~= Seq::<(SyntaxKind, Seq<char>)>::empty());
}

/// Appends `e` to `out`.
fn push_elem(out: &mut Vec<Element>, e: Element)
    ensures
        final(out)@ == old(out)@.push(e),
        leaves_all(final(out)@) == leaves_all(old(out)@) + leaves(e),
        shape_all(final(out)@) == shape_all(old(out)@) + shape(e),
{
    proof {
        lemma_leaves_all_push(old(out)@, e);
        lemma_shape_all_push(old(out)@, e);
    }
    out.push(e);
}

/// A node of `kind` over `children`.
fn mk_node(kind: SyntaxKind, children: Vec<Element>) -> (r: Element)
    ensures
        leaves(r) == leaves_all(children@),
        shape(r) == node_ev(kind, shape_all(children@)),
{
    let n = Node { kind, children };
    proof {
        lemma_leaves_node(n);
        lemma_shape_node(n);
    }
    Element::Node(n)
}

/// Appends a copy of the token at `pos` to `out`.
fn bump(t: &Vec<Token>, pos: usize, out: &mut Vec<Element>) -> (r: usize)
    requires
        pos < t@.len(),
    ensures
        r == pos + 1,
        leaves_all(final(out)@) == leaves_all(old(out)@) + seg(t@, pos as int, pos + 1),
        shape_all(final(out)@) == shape_all(old(out)@) + tev(token_views(t@), pos as int, pos + 1),
{
    let n = t.len();
    let tok = t[pos].copy();
    proof {
        lemma_leaves_token(tok);
        assert(seq![tok@] =~= seg(t@, pos as int, pos + 1));
        lemma_shape_token(tok);
        assert(token_views(t@)[pos as int] == t@[pos as int]@);
        assert(seq![Ev::Leaf(tok.kind, tok.text@)] =~= tev(token_views(t@), pos as int, pos + 1));
    }
    push_elem(out, Element::Token(tok));
    assert(pos + 1 <= n);
    pos + 1
}

/// Index of the first non-trivia token at or after `pos`, or the number of
/// tokens.
pub open spec fn first_sig(t: Seq<(SyntaxKind, Seq<char>)>, pos: int) -> int
    decreases t.len() - pos,
{
    if pos < 0 || pos >= t.len() {
        t.len() as int
    } else if !is_trivia_kind(t[pos].0) {
        pos
    } else {
        first_sig(t, pos + 1)
    }
}

/// Whether the first non-trivia token at or after `pos` has kind `k`.
pub open spec fn next_is_v(t: Seq<(SyntaxKind, Seq<char>)>, pos: int, k: SyntaxKind) -> bool {
    first_sig(t, pos) < t.len() && t[first_sig(t, pos)].0 == k
}

/// Index of the first non-trivia token at or after `pos` (or the end).
fn next_sig(t: &Vec<Token>, pos: usize) -> (r: usize)
    requires
        pos <= t@.len(),
    ensures
        pos <= r <= t@.len(),
        at_sig(t@, r as int),
        forall|j: int| pos <= j < r ==> is_trivia_kind(#[trigger] t@[j].kind),
        r == first_sig(token_views(t@), pos as int),
{
    let mut j = pos;
    while j < t.len() && t[j].kind.is_trivia()
        invariant
            pos <= j <= t@.len(),
            forall|k: int| pos <= k < j ==> is_trivia_kind(#[trigger] t@[k].kind),
            first_sig(token_views(t@), pos as int) == first_sig(token_views(t@), j as int),
        decreases t@.len() - j,
    {
        assert(token_views(t@)[j as int] == t@[j as int]@);
        j += 1;
    }
    proof {
        if j < t@.len() {
            assert(token_views(t@)[j as int] == t@[j as int]@);
        }
    }
    j
}

/// Appends the trivia tokens from `pos` up to the next significant token.
fn eat_trivia(t: &Vec<Token>, pos: usize, out: &mut Vec<Element>) -> (r: usize)
    requires
        pos <= t@.len(),
    ensures
        pos <= r <= t@.len(),
        at_sig(t@, r as int),
        forall|j: int| pos <= j < r ==> is_trivia_kind(#[trigger] t@[j].kind),
        leaves_all(final(out)@) == leaves_all(old(out)@) + seg(t@, pos as int, r as int),
        r == first_sig(token_views(t@), pos as int),
        shape_all(final(out)@) == shape_all(old(out)@) + tev(token_views(t@), pos as int, r as int),
{
    let end = next_sig(t, pos);
    let mut p = pos;
    proof {
        lemma_seg_empty(t@, pos as int);
        assert(leaves_all(out@) + seg(t@, pos as int, pos as int) =~= leaves_all(out@));
        assert(shape_all(out@) + tev(token_views(t@), pos as int, pos as int) =~= shape_all(out@));
    }
    while p < end
        invariant
            pos <= p <= end <= t@.len(),
            leaves_all(out@) == leaves_all(old(out)@) + seg(t@, pos as int, p as int),
            shape_all(out@) == shape_all(old(out)@) + tev(token_views(t@), pos as int, p as int),
        decreases end - p,
    {
        let ghost before = leaves_all(out@);
        let ghost sb = shape_all(out@);
        p = bump(t, p, out);
        proof {
            assert(sb + tev(token_views(t@), (p - 1) as int, p as int) =~= shape_all(old(out)@)
                + tev(token_views(t@), pos as int, p as int));
            lemma_seg_join(t@, pos as int, (p - 1) as int, p as int);
            assert(before + seg(t@, (p - 1) as int, p as int) =~= leaves_all(old(out)@) + seg(
                t@,
                pos as int,
                p as int,
            ));
        }
    }
    end
}

/// The kind of the token at `j`, or `None` at the end.
fn kind_at(t: &Vec<Token>, j: usize) -> (r: Option<SyntaxKind>)
    ensures
        j < t@.len() ==> r == Option::Some(t@[j as int].kind),
        j >= t@.len() ==> r is None,
{
    if j < t.len() {
        Option::Some(t[j].kind)
    } else {
        Option::None
    }
}

/// The binary operator kinds at each binary precedence level: 4
/// multiplicative, 5 additive, 6 bitwise, 7 range, 8 comparison, 9 `and`,
/// 10 `or`.
pub open spec fn level_op(level: int, k: SyntaxKind) -> bool {
    if level == 4 {
        k == SyntaxKind::Star || k == SyntaxKind::Slash || k == SyntaxKind::Percent
    } else if level == 5 {
        k == SyntaxKind::Plus || k == SyntaxKind::Minus
    } else if level == 6 {
        k == SyntaxKind::Amp || k == SyntaxKind::Pipe || k == SyntaxKind::Caret
    } else if level == 7 {
        k == SyntaxKind::DotDot
    } else if level == 8 {
        k == SyntaxKind::EqEq || k == SyntaxKind::BangEq || k == SyntaxKind::Lt || k
            == SyntaxKind::Gt || k == SyntaxKind::LtEq || k == SyntaxKind::GtEq
    } else if level == 9 {
        k == SyntaxKind::KwAnd
    } else if level == 10 {
        k == SyntaxKind::KwOr
    } else {
        false
    }
}

/// The assignment operators: `=`, `:=` and the compound ones.
pub open spec fn assign_op(k: SyntaxKind) -> bool {
    k == SyntaxKind::Eq || k == SyntaxKind::ColonEq || k == SyntaxKind::PlusEq || k
        == SyntaxKind::MinusEq || k == SyntaxKind::StarEq || k == SyntaxKind::SlashEq || k
        == SyntaxKind::PercentEq || k == SyntaxKind::AmpEq || k == SyntaxKind::PipeEq || k
        == SyntaxKind::CaretEq
}

/// The kinds of tokens that stand alone as expressions.
pub open spec fn atom_kind(k: SyntaxKind) -> bool {
    k == SyntaxKind::Ident || k == SyntaxKind::HexNumber || k == SyntaxKind::BinaryNumber || k
        == SyntaxKind::DecimalNumber || k == SyntaxKind::DoubleString || k
        == SyntaxKind::SingleString || k == SyntaxKind::TemplateLiteral || k == SyntaxKind::KwTrue
        || k == SyntaxKind::KwFalse || k == SyntaxKind::KwNull || k == SyntaxKind::KwNone || k
        == SyntaxKind::KwNan || k == SyntaxKind::KwInf || k == SyntaxKind::KwBreak || k
        == SyntaxKind::KwContinue || k == SyntaxKind::At
}

/// The kinds of tokens that close a `;`-separated sequence.
pub open spec fn sequence_end(k: SyntaxKind) -> bool {
    k == SyntaxKind::KwEnd || k == SyntaxKind::KwElse || k == SyntaxKind::KwDo || k
        == SyntaxKind::RParen || k == SyntaxKind::RBracket || k == SyntaxKind::RBrace || k
        == SyntaxKind::Semicolon
}

/// The binary operator kinds at each binary precedence level.
fn is_level_op(level: u8, k: SyntaxKind) -> (r: bool)
    ensures
        r == level_op(level as int, k),
{
    match level {
        4 => k == SyntaxKind::Star || k == SyntaxKind::Slash || k == SyntaxKind::Percent,
        5 => k == SyntaxKind::Plus || k == SyntaxKind::Minus,
        6 => k == SyntaxKind::Amp || k == SyntaxKind::Pipe || k == SyntaxKind::Caret,
        7 => k == SyntaxKind::DotDot,
        8 => k == SyntaxKind::EqEq || k == SyntaxKind::BangEq || k == SyntaxKind::Lt || k
            == SyntaxKind::Gt || k == SyntaxKind::LtEq || k == SyntaxKind::GtEq,
        9 => k == SyntaxKind::KwAnd,
        10 => k == SyntaxKind::KwOr,
        _ => false,
    }
}

/// Whether `k` is an assignment operator.
fn is_assign_op(k: SyntaxKind) -> (r: bool)
    ensures
        r == assign_op(k),
{
    k == SyntaxKind::Eq || k == SyntaxKind::ColonEq || k == SyntaxKind::PlusEq || k
        == SyntaxKind::MinusEq || k == SyntaxKind::StarEq || k == SyntaxKind::SlashEq || k
        == SyntaxKind::PercentEq || k == SyntaxKind::AmpEq || k == SyntaxKind::PipeEq || k
        == SyntaxKind::CaretEq
}

/// Whether a token of this kind stands alone as an expression.
fn is_atom(k: SyntaxKind) -> (r: bool)
    ensures
        r == atom_kind(k),
{
    k == SyntaxKind::Ident || k == SyntaxKind::HexNumber || k == SyntaxKind::BinaryNumber || k
        == SyntaxKind::DecimalNumber || k == SyntaxKind::DoubleString || k
        == SyntaxKind::SingleString || k == SyntaxKind::TemplateLiteral || k == SyntaxKind::KwTrue
        || k == SyntaxKind::KwFalse || k == SyntaxKind::KwNull || k == SyntaxKind::KwNone || k
        == SyntaxKind::KwNan || k == SyntaxKind::KwInf || k == SyntaxKind::KwBreak || k
        == SyntaxKind::KwContinue || k == SyntaxKind::At
}

/// Whether the next significant token (from `p`) has kind `k`.
fn next_is(t: &Vec<Token>, p: usize, k: SyntaxKind) -> (r: bool)
    requires
        p <= t@.len(),
    ensures
        r == next_is_v(token_views(t@), p as int, k),
{
    let j = next_sig(t, p);
    proof {
        if j < t@.len() {
            assert(token_views(t@)[j as int] == t@[j as int]@);
        }
    }
    j < t.len() && t[j].kind == k
}

/// If the next significant token has kind `k`, appends the trivia before it
/// and the token itself.
fn eat_if(t: &Vec<Token>, p: usize, k: SyntaxKind, out: &mut Vec<Element>) -> (r: usize)
    requires
        p <= t@.len(),
    ensures
        p <= r <= t@.len(),
        leaves_all(final(out)@) == leaves_all(old(out)@) + seg(t@, p as int, r as int),
        next_is_v(token_views(t@), p as int, k) ==> r == first_sig(token_views(t@), p as int) + 1,
        !next_is_v(token_views(t@), p as int, k) ==> r == p && final(out)@ == old(out)@,
        r == g_eat(token_views(t@), p as int, k).1,
        shape_all(final(out)@) == shape_all(old(out)@) + g_eat(token_views(t@), p as int, k).0,
{
    let j = next_sig(t, p);
    proof {
        if j < t@.len() {
            assert(token_views(t@)[j as int] == t@[j as int]@);
        }
    }
    if j < t.len() && t[j].kind == k {
        let q = eat_trivia(t, p, out);
        let ghost mid = leaves_all(out@);
        let ghost smid = shape_all(out@);
        let r = bump(t, q, out);
        proof {
            assert(smid + tev(token_views(t@), q as int, r as int) =~= shape_all(old(out)@)
                + tev(token_views(t@), p as int, r as int));
            lemma_seg_join(t@, p as int, q as int, r as int);
            assert(mid + seg(t@, q as int, r as int) =~= leaves_all(old(out)@) + seg(
                t@,
                p as int,
                r as int,
            ));
        }
        r
    } else {
        proof {
            lemma_seg_empty(t@, p as int);
            assert(leaves_all(out@) + seg(t@, p as int, p as int) =~= leaves_all(out@));
            assert(shape_all(out@) + Seq::<Ev>::empty() =~= shape_all(out@));
        }
        p
    }
}


/// Appends the trivia from `p` and then one expression at `level`.
fn sub_expr(t: &Vec<Token>, p: usize, level: u8, ch: &mut Vec<Element>) -> (r: usize)
    requires
        p <= t@.len(),
        1 <= level <= 12,
    ensures
        p <= r <= t@.len(),
        p < t@.len() ==> r > p,
        leaves_all(final(ch)@) == leaves_all(old(ch)@) + seg(t@, p as int, r as int),
        r == g_sub(token_views(t@), p as int, level as int).1,
        shape_all(final(ch)@) == shape_all(old(ch)@) + g_sub(token_views(t@), p as int, level as int).0,
    decreases t@.len() - p, 2 * level + 1,
{
    let q = eat_trivia(t, p, ch);
    let ghost mid = leaves_all(ch@);
    let ghost smid = shape_all(ch@);
    let (e, r) = parse_level(t, q, level);
    push_elem(ch, e);
    proof {
        assert(smid + shape(e) =~= shape_all(old(ch)@) + (tev(token_views(t@), p as int, q as int)
            + shape(e)));
        lemma_seg_join(t@, p as int, q as int, r as int);
        assert(mid + seg(t@, q as int, r as int) =~= leaves_all(old(ch)@) + seg(
            t@,
            p as int,
            r as int,
        ));
    }
    r
}

/// Parses an expression at precedence `level`: 12 a `;`-separated sequence,
/// 11 assignment, 10 `or`,
/// 9 `and`, 8 comparison, 7 range, 6 bitwise, 5 additive, 4 multiplicative,
/// 3 unary, 2 postfix (calls, navigation, tagged templates), 1 primary.
pub fn parse_level(t: &Vec<Token>, pos: usize, level: u8) -> (r: (Element, usize))
    requires
        pos <= t@.len(),
        at_sig(t@, pos as int),
        1 <= level <= 12,
    ensures
        pos <= r.1 <= t@.len(),
        leaves(r.0) == seg(t@, pos as int, r.1 as int),
        pos < t@.len() ==> r.1 > pos,
        shape(r.0) == g_level(token_views(t@), pos as int, level as int).0,
        r.1 == g_level(token_views(t@), pos as int, level as int).1,
    decreases t@.len() - pos, 2 * level,
{
    if level == 12 {
        parse_compound(t, pos)
    } else if level == 11 {
        parse_assign(t, pos)
    } else if level >= 4 {
        parse_binary(t, pos, level)
    } else if level == 3 {
        parse_unary(t, pos)
    } else if level == 2 {
        parse_postfix(t, pos)
    } else {
        parse_primary(t, pos)
    }
}

/// Expressions separated by `;`, as one `CompoundExpr` when there is a `;`.
fn parse_compound(t: &Vec<Token>, pos: usize) -> (r: (Element, usize))
    requires
        pos <= t@.len(),
        at_sig(t@, pos as int),
    ensures
        pos <= r.1 <= t@.len(),
        leaves(r.0) == seg(t@, pos as int, r.1 as int),
        pos < t@.len() ==> r.1 > pos,
        shape(r.0) == g_compound(token_views(t@), pos as int).0,
        r.1 == g_compound(token_views(t@), pos as int).1,
    decreases t@.len() - pos, 23nat,
{
    let ghost v = token_views(t@);
    let (first, p0) = parse_level(t, pos, 11);
    if !next_is(t, p0, SyntaxKind::Semicolon) {
        return (first, p0);
    }
    let mut ch: Vec<Element> = Vec::new();
    push_elem(&mut ch, first);
    proof {
        assert(Seq::<Element>::empty().push(first).drop_last() =~= Seq::<Element>::empty());
        assert(Seq::<Ev>::empty() + shape(first) =~= shape(first));
    }
    let mut p = p0;
    loop
        invariant
            pos <= p <= t@.len(),
            leaves_all(ch@) == seg(t@, pos as int, p as int),
            pos < t@.len() ==> p > pos,
            v == token_views(t@),
            g_cloop(v, p as int, shape_all(ch@)) == g_cloop(v, p0 as int, shape(first)),
        ensures
            pos <= p <= t@.len(),
            leaves_all(ch@) == seg(t@, pos as int, p as int),
            pos < t@.len() ==> p > pos,
            g_cloop(v, p as int, shape_all(ch@)) == (shape_all(ch@), p as int),
            g_cloop(v, p as int, shape_all(ch@)) == g_cloop(v, p0 as int, shape(first)),
        decreases t@.len() - p,
    {
        let ghost acc = shape_all(ch@);
        let ghost p_in = p;
        let j = next_sig(t, p);
        proof {
            if j < t@.len() {
                assert(v[j as int] == t@[j as int]@);
            }
        }
        if !(j < t.len() && t[j].kind == SyntaxKind::Semicolon) {
            break;
        }
        p = eat_trivia(t, p, &mut ch);
        p = bump(t, p, &mut ch);
        proof {
            assert(acc + tev(v, p_in as int, j as int) + tev(v, j as int, p as int) =~= acc + tev(
                v,
                p_in as int,
                p as int,
            ));
        }
        let ghost acc1 = shape_all(ch@);
        let j2 = next_sig(t, p);
        proof {
            if j2 < t@.len() {
                assert(v[j2 as int] == t@[j2 as int]@);
            }
        }
        if j2 < t.len() && !ends_sequence(t[j2].kind) {
            p = sub_expr(t, p, 11, &mut ch);
        }
    }
    (mk_node(SyntaxKind::CompoundExpr, ch), p)
}

/// Tokens that close a `;`-separated sequence.
fn ends_sequence(k: SyntaxKind) -> (r: bool)
    ensures
        r == sequence_end(k),
{
    k == SyntaxKind::KwEnd || k == SyntaxKind::KwElse || k == SyntaxKind::KwDo || k
        == SyntaxKind::RParen || k == SyntaxKind::RBracket || k == SyntaxKind::RBrace || k
        == SyntaxKind::Semicolon
}

/// `place = value`, `place: Type = value`, `place: Type`, and compound assignments.
fn parse_assign(t: &Vec<Token>, pos: usize) -> (r: (Element, usize))
    requires
        pos <= t@.len(),
        at_sig(t@, pos as int),
    ensures
        pos <= r.1 <= t@.len(),
        leaves(r.0) == seg(t@, pos as int, r.1 as int),
        pos < t@.len() ==> r.1 > pos,
        shape(r.0) == g_assign(token_views(t@), pos as int).0,
        r.1 == g_assign(token_views(t@), pos as int).1,
    decreases t@.len() - pos, 21nat,
{
    let ghost v = token_views(t@);
    let (lhs, p) = parse_level(t, pos, 10);
    let j = next_sig(t, p);
    let k = kind_at(t, j);
    proof {
        if j < t@.len() {
            assert(v[j as int] == t@[j as int]@);
        }
    }
    let typed = k == Option::Some(SyntaxKind::Colon);
    let assigning = match k {
        Option::Some(kk) => is_assign_op(kk),
        Option::None => false,
    };
    if !typed && !assigning {
        return (lhs, p);
    }
    let ghost p_l = p;
    let mut ch: Vec<Element> = Vec::new();
    push_elem(&mut ch, lhs);
    let mut p = eat_trivia(t, p, &mut ch);
    p = bump(t, p, &mut ch);
    proof {
        assert(Seq::<Ev>::empty() + shape(lhs) + tev(v, p_l as int, j as int) + tev(
            v,
            j as int,
            p as int,
        ) =~= shape(lhs) + tev(v, p_l as int, p as int));
    }
    let ghost acc = shape_all(ch@);
    if typed {
        let q = sub_expr(t, p, 10, &mut ch);
        p = q;
        let ghost acc2 = shape_all(ch@);
        let j2 = next_sig(t, p);
        proof {
            if j2 < t@.len() {
                assert(v[j2 as int] == t@[j2 as int]@);
            }
        }
        let op = match kind_at(t, j2) {
            Option::Some(kk) => is_assign_op(kk),
            Option::None => false,
        };
        if op {
            p = eat_trivia(t, p, &mut ch);
            p = bump(t, p, &mut ch);
            proof {
                assert(acc2 + tev(v, q as int, j2 as int) + tev(v, j2 as int, p as int) =~= acc2
                    + tev(v, q as int, p as int));
            }
            p = sub_expr(t, p, 11, &mut ch);
        }
    } else {
        p = sub_expr(t, p, 11, &mut ch);
    }
    (mk_node(SyntaxKind::AssignExpr, ch), p)
}

/// Left-associative binary operators at `level` (ranges do not chain).
fn parse_binary(t: &Vec<Token>, pos: usize, level: u8) -> (r: (Element, usize))
    requires
        pos <= t@.len(),
        at_sig(t@, pos as int),
        4 <= level <= 10,
    ensures
        pos <= r.1 <= t@.len(),
        leaves(r.0) == seg(t@, pos as int, r.1 as int),
        pos < t@.len() ==> r.1 > pos,
        shape(r.0) == g_binary(token_views(t@), pos as int, level as int).0,
        r.1 == g_binary(token_views(t@), pos as int, level as int).1,
    decreases t@.len() - pos, 2 * level - 1,
{
    let ghost v = token_views(t@);
    let (first, p0) = parse_level(t, pos, level - 1);
    let mut lhs = first;
    let mut p = p0;
    loop
        invariant_except_break
            g_bloop(v, p as int, level as int, shape(lhs)) == g_bloop(v, p0 as int, level as int, shape(first)),
        invariant
            pos <= p <= t@.len(),
            leaves(lhs) == seg(t@, pos as int, p as int),
            pos < t@.len() ==> p > pos,
            4 <= level <= 10,
            v == token_views(t@),
        ensures
            pos <= p <= t@.len(),
            leaves(lhs) == seg(t@, pos as int, p as int),
            pos < t@.len() ==> p > pos,
            (shape(lhs), p as int) == g_bloop(v, p0 as int, level as int, shape(first)),
        decreases t@.len() - p,
    {
        let j = next_sig(t, p);
        proof {
            if j < t@.len() {
                assert(v[j as int] == t@[j as int]@);
            }
        }
        let is_op = j < t.len() && is_level_op(level, t[j].kind);
        if !is_op {
            break;
        }
        let ghost p_in = p;
        let mut ch: Vec<Element> = Vec::new();
        push_elem(&mut ch, lhs);
        proof {
            assert(Seq::<Element>::empty().push(lhs).drop_last() =~= Seq::<Element>::empty());
        }
        let q = eat_trivia(t, p, &mut ch);
        let q = bump(t, q, &mut ch);
        proof {
            assert(Seq::<Ev>::empty() + shape(lhs) + tev(v, p_in as int, j as int) + tev(
                v,
                j as int,
                q as int,
            ) =~= shape(lhs) + tev(v, p_in as int, q as int));
        }
        let q = sub_expr(t, q, level - 1, &mut ch);
        let kind = if level == 7 {
            SyntaxKind::RangeExpr
        } else {
            SyntaxKind::BinaryExpr
        };
        lhs = mk_node(kind, ch);
        p = q;
        if level == 7 {
            break;
        }
    }
    (lhs, p)
}

/// Prefix `-`, `~`, `not` and `delete`.
fn parse_unary(t: &Vec<Token>, pos: usize) -> (r: (Element, usize))
    requires
        pos <= t@.len(),
        at_sig(t@, pos as int),
    ensures
        pos <= r.1 <= t@.len(),
        leaves(r.0) == seg(t@, pos as int, r.1 as int),
        pos < t@.len() ==> r.1 > pos,
        shape(r.0) == g_unary(token_views(t@), pos as int).0,
        r.1 == g_unary(token_views(t@), pos as int).1,
    decreases t@.len() - pos, 5nat,
{
    let ghost v = token_views(t@);
    let k = kind_at(t, pos);
    proof {
        if pos < t@.len() {
            assert(v[pos as int] == t@[pos as int]@);
        }
    }
    let is_prefix = match k {
        Option::Some(kk) => kk == SyntaxKind::Minus || kk == SyntaxKind::Tilde || kk
            == SyntaxKind::KwDelete || kk == SyntaxKind::KwNot,
        Option::None => false,
    };
    if !is_prefix {
        return parse_level(t, pos, 2);
    }
    let mut ch: Vec<Element> = Vec::new();
    let p = bump(t, pos, &mut ch);
    proof {
        assert(Seq::<Ev>::empty() + tev(v, pos as int, p as int) =~= tev(v, pos as int, p as int));
    }
    let p = sub_expr(t, p, 3, &mut ch);
    (mk_node(SyntaxKind::UnaryExpr, ch), p)
}

/// Calls `f(a, b)`, navigation `a.b` / `a.(e)`, and tagged templates `tag`...``.
fn parse_postfix(t: &Vec<Token>, pos: usize) -> (r: (Element, usize))
    requires
        pos <= t@.len(),
        at_sig(t@, pos as int),
    ensures
        pos <= r.1 <= t@.len(),
        leaves(r.0) == seg(t@, pos as int, r.1 as int),
        pos < t@.len() ==> r.1 > pos,
        shape(r.0) == g_postfix(token_views(t@), pos as int).0,
        r.1 == g_postfix(token_views(t@), pos as int).1,
    decreases t@.len() - pos, 3nat,
{
    let ghost v = token_views(t@);
    proof {
        if pos < t@.len() {
            assert(v[pos as int] == t@[pos as int]@);
        }
    }
    let base_is_ident = kind_at(t, pos) == Option::Some(SyntaxKind::Ident);
    let (first, p0) = parse_level(t, pos, 1);
    let mut lhs = first;
    let mut p = p0;
    let mut ident_base = base_is_ident;
    let ghost g0 = g_ploop(v, p0 as int, shape(first), base_is_ident);
    loop
        invariant
            pos <= p <= t@.len(),
            leaves(lhs) == seg(t@, pos as int, p as int),
            pos < t@.len() ==> p > pos,
            v == token_views(t@),
            g_ploop(v, p as int, shape(lhs), ident_base) == g0,
        ensures
            pos <= p <= t@.len(),
            leaves(lhs) == seg(t@, pos as int, p as int),
            pos < t@.len() ==> p > pos,
            (shape(lhs), p as int) == g0,
        decreases t@.len() - p,
    {
        let k = kind_at(t, p);
        proof {
            if p < t@.len() {
                assert(v[p as int] == t@[p as int]@);
            }
            if p + 1 < t@.len() {
                assert(v[p + 1] == t@[p + 1]@);
            }
        }
        let is_dot_key = p < t.len() && k == Option::Some(SyntaxKind::Dot) && p + 1 < t.len() && (t[p + 1].kind
            == SyntaxKind::Ident || t[p + 1].kind == SyntaxKind::DecimalNumber || t[p
            + 1].kind.is_keyword());
        let action: u8 = if k == Option::Some(SyntaxKind::LParen) {
            1
        } else if is_dot_key {
            2
        } else if k == Option::Some(SyntaxKind::DotParen) {
            3
        } else if k == Option::Some(SyntaxKind::TemplateLiteral) && ident_base {
            4
        } else {
            0
        };
        assert(action == postfix_action(v, p as int, ident_base));
        if action == 0 {
            break;
        }
        let ghost p_in = p;
        let ghost lhs_in = shape(lhs);
        let mut ch: Vec<Element> = Vec::new();
        push_elem(&mut ch, lhs);
        proof {
            assert(Seq::<Element>::empty().push(lhs).drop_last() =~= Seq::<Element>::empty());
        }
        if action == 1 {
            let mut q = bump(t, p, &mut ch);
            proof {
                assert(Seq::<Ev>::empty() + lhs_in + tev(v, p_in as int, q as int) =~= lhs_in + tev(
                    v,
                    p_in as int,
                    q as int,
                ));
            }
            let ghost a0 = g_args(v, q as int, shape_all(ch@));
            loop
                invariant_except_break
                    g_args(v, q as int, shape_all(ch@)) == a0,
                invariant
                    pos <= p < q <= t@.len(),
                    leaves_all(ch@) == seg(t@, pos as int, q as int),
                    v == token_views(t@),
                ensures
                    pos <= p < q <= t@.len(),
                    leaves_all(ch@) == seg(t@, pos as int, q as int),
                    (shape_all(ch@), q as int) == a0,
                decreases t@.len() - q,
            {
                let ghost acc = shape_all(ch@);
                let ghost q_in = q;
                let j = next_sig(t, q);
                if j >= t.len() {
                    break;
                }
                proof {
                    assert(v[j as int] == t@[j as int]@);
                }
                if t[j].kind == SyntaxKind::RParen {
                    q = eat_trivia(t, q, &mut ch);
                    q = bump(t, q, &mut ch);
                    proof {
                        assert(acc + tev(v, q_in as int, j as int) + tev(v, j as int, q as int) =~= acc
                            + tev(v, q_in as int, q as int));
                    }
                    break;
                } else if t[j].kind == SyntaxKind::Comma {
                    q = eat_trivia(t, q, &mut ch);
                    q = bump(t, q, &mut ch);
                    proof {
                        assert(acc + tev(v, q_in as int, j as int) + tev(v, j as int, q as int) =~= acc
                            + tev(v, q_in as int, q as int));
                    }
                } else if t[j].kind == SyntaxKind::DotDotDot {
                    let q1 = eat_trivia(t, q, &mut ch);
                    let ghost mid = leaves_all(ch@);
                    proof {
                        if q1 < j {
                            assert(is_trivia_kind(t@[q1 as int].kind));
                        }
                        if j < q1 {
                            assert(is_trivia_kind(t@[j as int].kind));
                        }
                    }
                    let (sp, q2) = parse_spread(t, q1, 11);
                    push_elem(&mut ch, sp);
                    q = q2;
                } else {
                    q = sub_expr(t, q, 11, &mut ch);
                }
            }
            lhs = mk_node(SyntaxKind::CallExpr, ch);
            p = q;
            ident_base = false;
        } else if action == 2 {
            let q = bump(t, p, &mut ch);
            let q = bump(t, q, &mut ch);
            proof {
                assert(Seq::<Ev>::empty() + lhs_in + tev(v, p_in as int, p_in + 1) + tev(
                    v,
                    p_in + 1,
                    q as int,
                ) =~= lhs_in + tev(v, p_in as int, q as int));
            }
            lhs = mk_node(SyntaxKind::NavExpr, ch);
            p = q;
            ident_base = false;
        } else if action == 3 {
            let q = bump(t, p, &mut ch);
            proof {
                assert(Seq::<Ev>::empty() + lhs_in + tev(v, p_in as int, q as int) =~= lhs_in + tev(
                    v,
                    p_in as int,
                    q as int,
                ));
            }
            let q = if next_is(t, q, SyntaxKind::RParen) {
                q
            } else {
                sub_expr(t, q, 11, &mut ch)
            };
            let q = eat_if(t, q, SyntaxKind::RParen, &mut ch);
            lhs = mk_node(SyntaxKind::NavExpr, ch);
            p = q;
            ident_base = false;
        } else {
            let q = bump(t, p, &mut ch);
            proof {
                assert(Seq::<Ev>::empty() + lhs_in + tev(v, p_in as int, q as int) =~= lhs_in + tev(
                    v,
                    p_in as int,
                    q as int,
                ));
            }
            lhs = mk_node(SyntaxKind::TemplateExpr, ch);
            p = q;
            ident_base = false;
        }
    }
    (lhs, p)
}

/// Atoms, groups, collections and the block constructs.
fn parse_primary(t: &Vec<Token>, pos: usize) -> (r: (Element, usize))
    requires
        pos <= t@.len(),
        at_sig(t@, pos as int),
    ensures
        pos <= r.1 <= t@.len(),
        leaves(r.0) == seg(t@, pos as int, r.1 as int),
        pos < t@.len() ==> r.1 > pos,
        shape(r.0) == g_primary(token_views(t@), pos as int).0,
        r.1 == g_primary(token_views(t@), pos as int).1,
    decreases t@.len() - pos, 1nat,
{
    let ghost v = token_views(t@);
    if pos >= t.len() {
        proof {
            lemma_seg_empty(t@, pos as int);
        }
        return (mk_node(SyntaxKind::Error, Vec::new()), pos);
    }
    proof {
        assert(v[pos as int] == t@[pos as int]@);
    }
    let k = t[pos].kind;
    if is_atom(k) {
        let tok = t[pos].copy();
        proof {
            lemma_leaves_token(tok);
            assert(seq![tok@] =~= seg(t@, pos as int, pos + 1));
            lemma_shape_token(tok);
            assert(seq![Ev::Leaf(tok.kind, tok.text@)] =~= tev(v, pos as int, pos + 1));
        }
        return (Element::Token(tok), pos + 1);
    }
    if k == SyntaxKind::KwWhen || k == SyntaxKind::KwUnless {
        parse_construct(t, pos, 0)
    } else if k == SyntaxKind::KwFor {
        parse_construct(t, pos, 1)
    } else if k == SyntaxKind::KwWhile {
        parse_construct(t, pos, 2)
    } else if k == SyntaxKind::LBracket {
        parse_collection(t, pos, true)
    } else if k == SyntaxKind::LBrace {
        parse_collection(t, pos, false)
    } else if k == SyntaxKind::LParen {
        let mut ch: Vec<Element> = Vec::new();
        let p = bump(t, pos, &mut ch);
        proof {
            assert(Seq::<Ev>::empty() + tev(v, pos as int, p as int) =~= tev(v, pos as int, p as int));
        }
        let p = if next_is(t, p, SyntaxKind::RParen) {
            p
        } else {
            sub_expr(t, p, 11, &mut ch)
        };
        let p = eat_if(t, p, SyntaxKind::RParen, &mut ch);
        (mk_node(SyntaxKind::GroupExpr, ch), p)
    } else if k == SyntaxKind::KwReturn {
        let mut ch: Vec<Element> = Vec::new();
        let p = bump(t, pos, &mut ch);
        proof {
            assert(Seq::<Ev>::empty() + tev(v, pos as int, p as int) =~= tev(v, pos as int, p as int));
        }
        let j = next_sig(t, p);
        proof {
            if j < t@.len() {
                assert(v[j as int] == t@[j as int]@);
            }
        }
        let has_value = j < t.len() && !(t[j].kind == SyntaxKind::KwEnd || t[j].kind
            == SyntaxKind::KwElse || t[j].kind == SyntaxKind::RParen || t[j].kind
            == SyntaxKind::RBracket || t[j].kind == SyntaxKind::RBrace);
        let p = if has_value {
            sub_expr(t, p, 11, &mut ch)
        } else {
            p
        };
        (mk_node(SyntaxKind::ReturnExpr, ch), p)
    } else {
        let mut ch: Vec<Element> = Vec::new();
        let p = bump(t, pos, &mut ch);
        proof {
            assert(Seq::<Ev>::empty() + tev(v, pos as int, p as int) =~= tev(v, pos as int, p as int));
        }
        (mk_node(SyntaxKind::Error, ch), p)
    }
}


/// `when`/`unless` (`which` 0), `for` (1) and `while` (2) constructs with
/// their `do ... [else ...] end` bodies.
fn parse_construct(t: &Vec<Token>, pos: usize, which: u8) -> (r: (Element, usize))
    requires
        pos < t@.len(),
    ensures
        pos < r.1 <= t@.len(),
        leaves(r.0) == seg(t@, pos as int, r.1 as int),
        shape(r.0) == g_construct(token_views(t@), pos as int, which as int).0,
        r.1 == g_construct(token_views(t@), pos as int, which as int).1,
    decreases t@.len() - pos, 0nat,
{
    let ghost v = token_views(t@);
    let mut ch: Vec<Element> = Vec::new();
    let mut p = bump(t, pos, &mut ch);
    proof {
        assert(Seq::<Ev>::empty() + tev(v, pos as int, p as int) =~= tev(v, pos as int, p as int));
    }
    let ghost acc = shape_all(ch@);
    if which == 1 {
        let ghost p_a = p;
        p = eat_trivia(t, p, &mut ch);
        let (ib, q) = parse_iter_binding(t, p);
        push_elem(&mut ch, ib);
        p = q;
    } else {
        p = sub_expr(t, p, 12, &mut ch);
    }
    let ghost acc1 = shape_all(ch@);
    let ghost p1 = p;
    p = eat_if(t, p, SyntaxKind::KwDo, &mut ch);
    let ghost acc_do = shape_all(ch@);
    let ghost p2 = p;
    p = eat_trivia(t, p, &mut ch);
    let ghost q3 = p;
    let (blk, q) = parse_block(t, p);
    push_elem(&mut ch, blk);
    p = q;
    proof {
        assert(acc_do + tev(v, p2 as int, q3 as int) + shape(blk) == shape_all(ch@));
    }
    let ghost acc2 = shape_all(ch@);
    let ghost p4 = p;
    let j = next_sig(t, p);
    proof {
        if j < t@.len() {
            assert(v[j as int] == t@[j as int]@);
        }
    }
    if which == 0 && j < t.len() && t[j].kind == SyntaxKind::KwElse {
        p = eat_trivia(t, p, &mut ch);
        let (eb, q) = parse_else_branch(t, p);
        push_elem(&mut ch, eb);
        p = q;
    }
    p = eat_if(t, p, SyntaxKind::KwEnd, &mut ch);
    let kind = if which == 0 {
        SyntaxKind::ConditionalExpr
    } else if which == 1 {
        SyntaxKind::ForExpr
    } else {
        SyntaxKind::WhileExpr
    };
    (mk_node(kind, ch), p)
}

/// `else [when|unless cond do] block [else ...]`.
fn parse_else_branch(t: &Vec<Token>, pos: usize) -> (r: (Element, usize))
    requires
        pos < t@.len(),
    ensures
        pos < r.1 <= t@.len(),
        leaves(r.0) == seg(t@, pos as int, r.1 as int),
        shape(r.0) == g_else(token_views(t@), pos as int).0,
        r.1 == g_else(token_views(t@), pos as int).1,
    decreases t@.len() - pos, 0nat,
{
    let ghost v = token_views(t@);
    let mut ch: Vec<Element> = Vec::new();
    let mut p = bump(t, pos, &mut ch);
    proof {
        assert(Seq::<Ev>::empty() + tev(v, pos as int, p as int) =~= tev(v, pos as int, p as int));
    }
    let ghost acc = shape_all(ch@);
    if next_is(t, p, SyntaxKind::KwWhen) || next_is(t, p, SyntaxKind::KwUnless) {
        let ghost p_a = p;
        p = eat_trivia(t, p, &mut ch);
        if p < t.len() {
            p = bump(t, p, &mut ch);
        }
        proof {
            assert(acc + tev(v, p_a as int, p - 1) + tev(v, p - 1, p as int) =~= acc + tev(
                v,
                p_a as int,
                p as int,
            ));
        }
        p = sub_expr(t, p, 11, &mut ch);
        p = eat_if(t, p, SyntaxKind::KwDo, &mut ch);
    }
    let ghost acc1 = shape_all(ch@);
    let ghost p1 = p;
    p = eat_trivia(t, p, &mut ch);
    let (blk, q) = parse_block(t, p);
    push_elem(&mut ch, blk);
    p = q;
    let ghost acc2 = shape_all(ch@);
    if next_is(t, p, SyntaxKind::KwElse) {
        p = eat_trivia(t, p, &mut ch);
        if p < t.len() {
            let (eb, q) = parse_else_branch(t, p);
            push_elem(&mut ch, eb);
            p = q;
        }
    }
    (mk_node(SyntaxKind::ElseBranch, ch), p)
}

/// The statements of a block, up to (not including) `end`, `else` or the end
/// of input. Trivia after the last statement is left to the enclosing node.
fn parse_block(t: &Vec<Token>, pos: usize) -> (r: (Element, usize))
    requires
        pos <= t@.len(),
        at_sig(t@, pos as int),
    ensures
        pos <= r.1 <= t@.len(),
        leaves(r.0) == seg(t@, pos as int, r.1 as int),
        shape(r.0) == g_block(token_views(t@), pos as int).0,
        r.1 == g_block(token_views(t@), pos as int).1,
    decreases t@.len() - pos, 26nat,
{
    let ghost v = token_views(t@);
    let mut ch: Vec<Element> = Vec::new();
    let mut q = pos;
    proof {
        lemma_seg_empty(t@, pos as int);
    }
    let ghost b0 = g_blk(v, pos as int, Seq::empty());
    loop
        invariant
            pos <= q <= t@.len(),
            leaves_all(ch@) == seg(t@, pos as int, q as int),
            v == token_views(t@),
            g_blk(v, q as int, shape_all(ch@)) == b0,
        ensures
            pos <= q <= t@.len(),
            leaves_all(ch@) == seg(t@, pos as int, q as int),
            (shape_all(ch@), q as int) == b0,
        decreases t@.len() - q,
    {
        let j = next_sig(t, q);
        proof {
            if j < t@.len() {
                assert(v[j as int] == t@[j as int]@);
            }
        }
        if j >= t.len() || t[j].kind == SyntaxKind::KwEnd || t[j].kind == SyntaxKind::KwElse {
            break;
        }
        q = eat_trivia(t, q, &mut ch);
        let ghost mid = leaves_all(ch@);
        let (item, q2) = parse_item(t, q);
        push_elem(&mut ch, item);
        proof {
            lemma_seg_join(t@, pos as int, q as int, q2 as int);
        }
        q = q2;
    }
    (mk_node(SyntaxKind::Block, ch), q)
}

/// One statement: a type declaration, an extern declaration, or an expression.
#[verifier::rlimit(40)]
fn parse_item(t: &Vec<Token>, pos: usize) -> (r: (Element, usize))
    requires
        pos < t@.len(),
        at_sig(t@, pos as int),
    ensures
        pos < r.1 <= t@.len(),
        leaves(r.0) == seg(t@, pos as int, r.1 as int),
        shape(r.0) == g_item(token_views(t@), pos as int).0,
        r.1 == g_item(token_views(t@), pos as int).1,
    decreases t@.len() - pos, 25nat,
{
    let ghost v = token_views(t@);
    proof {
        assert(v[pos as int] == t@[pos as int]@);
    }
    let k = t[pos].kind;
    if k == SyntaxKind::KwType {
        let mut ch: Vec<Element> = Vec::new();
        let mut p = bump(t, pos, &mut ch);
        proof {
            assert(Seq::<Ev>::empty() + tev(v, pos as int, p as int) =~= tev(v, pos as int, p as int));
        }
        p = eat_if(t, p, SyntaxKind::Ident, &mut ch);
        p = eat_if(t, p, SyntaxKind::Eq, &mut ch);
        let j = next_sig(t, p);
        proof {
            if j < t@.len() {
                assert(v[j as int] == t@[j as int]@);
            }
        }
        if j < t.len() && t[j].kind != SyntaxKind::KwEnd && t[j].kind != SyntaxKind::KwElse {
            p = sub_expr(t, p, 11, &mut ch);
        }
        (mk_node(SyntaxKind::TypeDecl, ch), p)
    } else if k == SyntaxKind::KwExtern {
        let mut ch: Vec<Element> = Vec::new();
        let mut p = bump(t, pos, &mut ch);
        proof {
            assert(Seq::<Ev>::empty() + tev(v, pos as int, p as int) =~= tev(v, pos as int, p as int));
        }
        let ghost acc = shape_all(ch@);
        p = eat_if(t, p, SyntaxKind::DoubleString, &mut ch);
        p = eat_if(t, p, SyntaxKind::SingleString, &mut ch);
        let ghost p2 = p;
        let ghost acc2 = shape_all(ch@);
        let j = next_sig(t, p);
        proof {
            if j < t@.len() {
                assert(v[j as int] == t@[j as int]@);
            }
        }
        let mutable = j < t.len() && t[j].kind == SyntaxKind::Ident && crate::lexer::word_is(
            t[j].text.as_slice(),
            &['m', 'u', 't'],
        ) && next_is(t, j + 1, SyntaxKind::Ident);
        if mutable {
            p = eat_if(t, p, SyntaxKind::Ident, &mut ch);
        }
        proof {
            let spec_mut = j < v.len() && v[j as int].0 == SyntaxKind::Ident && v[j as int].1
                == seq!['m', 'u', 't'] && next_is_v(v, j + 1, SyntaxKind::Ident);
            assert(mutable == spec_mut);
            if !mutable {
                assert(shape_all(ch@) =~= acc2 + Seq::<Ev>::empty());
            }
        }
        let ghost p3 = p;
        let ghost acc3 = shape_all(ch@);
        let j = next_sig(t, p);
        proof {
            if j < t@.len() {
                assert(v[j as int] == t@[j as int]@);
            }
        }
        if j < t.len() && t[j].kind != SyntaxKind::KwEnd && t[j].kind != SyntaxKind::KwElse {
            p = sub_expr(t, p, 11, &mut ch);
        } else {
            proof {
                assert(shape_all(ch@) =~= acc3 + Seq::<Ev>::empty());
            }
        }
        let ghost p4 = p;
        let ghost acc4 = shape_all(ch@);
        if next_is(t, p, SyntaxKind::Arrow) {
            p = eat_if(t, p, SyntaxKind::Arrow, &mut ch);
            let ghost acc_a = shape_all(ch@);
            let j = next_sig(t, p);
            if j < t.len() {
                p = sub_expr(t, p, 11, &mut ch);
                proof {
                    assert(shape_all(ch@) =~= acc4 + (g_eat(v, p4 as int, SyntaxKind::Arrow).0
                        + g_sub(v, g_eat(v, p4 as int, SyntaxKind::Arrow).1, 11).0));
                }
            }
        } else {
            proof {
                assert(shape_all(ch@) =~= acc4 + Seq::<Ev>::empty());
            }
        }
        (mk_node(SyntaxKind::ExternDecl, ch), p)
    } else {
        parse_level(t, pos, 12)
    }
}

/// The binding of a `for` loop or comprehension: names, then `in`/`of` and
/// the iterable.
fn parse_iter_binding(t: &Vec<Token>, pos: usize) -> (r: (Element, usize))
    requires
        pos <= t@.len(),
        at_sig(t@, pos as int),
    ensures
        pos <= r.1 <= t@.len(),
        pos < t@.len() ==> r.1 > pos,
        leaves(r.0) == seg(t@, pos as int, r.1 as int),
        shape(r.0) == g_iter(token_views(t@), pos as int).0,
        r.1 == g_iter(token_views(t@), pos as int).1,
    decreases t@.len() - pos, 24nat,
{
    let ghost v = token_views(t@);
    let mut ch: Vec<Element> = Vec::new();
    let mut q = pos;
    proof {
        lemma_seg_empty(t@, pos as int);
    }
    let ghost i0 = g_iloop(v, pos as int, Seq::empty());
    loop
        invariant
            pos <= q <= t@.len(),
            leaves_all(ch@) == seg(t@, pos as int, q as int),
            v == token_views(t@),
            g_iloop(v, q as int, shape_all(ch@)) == i0,
        ensures
            pos <= q <= t@.len(),
            leaves_all(ch@) == seg(t@, pos as int, q as int),
            (shape_all(ch@), q as int) == i0,
        decreases t@.len() - q,
    {
        let ghost acc = shape_all(ch@);
        let ghost q_in = q;
        let j = next_sig(t, q);
        proof {
            if j < t@.len() {
                assert(v[j as int] == t@[j as int]@);
            }
        }
        if j < t.len() && (t[j].kind == SyntaxKind::Ident || t[j].kind == SyntaxKind::Comma) {
            q = eat_trivia(t, q, &mut ch);
            q = bump(t, q, &mut ch);
            proof {
                assert(acc + tev(v, q_in as int, j as int) + tev(v, j as int, q as int) =~= acc + tev(
                    v,
                    q_in as int,
                    q as int,
                ));
            }
        } else {
            break;
        }
    }
    let ghost acc = shape_all(ch@);
    let ghost q0 = q;
    if next_is(t, q, SyntaxKind::KwIn) || next_is(t, q, SyntaxKind::KwOf) {
        q = eat_trivia(t, q, &mut ch);
        let ghost j = q;
        if q < t.len() {
            q = bump(t, q, &mut ch);
        }
        proof {
            assert(acc + tev(v, q0 as int, j as int) + tev(v, j as int, q as int) =~= acc + tev(
                v,
                q0 as int,
                q as int,
            ));
        }
        q = sub_expr(t, q, 11, &mut ch);
    } else if q == pos {
        q = sub_expr(t, q, 11, &mut ch);
    }
    (mk_node(SyntaxKind::IterBinding, ch), q)
}

/// `key: value` inside an object. In type expressions a key may be `*`
/// (any key) and may follow `mut` (a writable field).
fn parse_pair(t: &Vec<Token>, pos: usize) -> (r: (Element, usize))
    requires
        pos <= t@.len(),
        at_sig(t@, pos as int),
    ensures
        pos <= r.1 <= t@.len(),
        pos < t@.len() ==> r.1 > pos,
        leaves(r.0) == seg(t@, pos as int, r.1 as int),
        shape(r.0) == g_pair(token_views(t@), pos as int).0,
        r.1 == g_pair(token_views(t@), pos as int).1,
    decreases t@.len() - pos, 6nat,
{
    let ghost v = token_views(t@);
    let mut ch: Vec<Element> = Vec::new();
    proof {
        lemma_seg_empty(t@, pos as int);
    }
    let mut q = pos;
    let ghost mut took = false;
    if pos < t.len() && t[pos].kind == SyntaxKind::Ident && crate::lexer::word_is(
        t[pos].text.as_slice(),
        &['m', 'u', 't'],
    ) {
        let j = next_sig(t, pos + 1);
        proof {
            if j < t@.len() {
                assert(v[j as int] == t@[j as int]@);
            }
        }
        if j < t.len() && (t[j].kind == SyntaxKind::Ident || t[j].kind == SyntaxKind::Star) {
            q = bump(t, pos, &mut ch);
            proof {
                took = true;
                assert(Seq::<Ev>::empty() + tev(v, pos as int, q as int) =~= tev(v, pos as int, q as int));
            }
        }
    }
    proof {
        if pos < t@.len() {
            assert(v[pos as int] == t@[pos as int]@);
        }
        let jm = first_sig(v, pos + 1);
        let take_mut = 0 <= pos < v.len() && v[pos as int].0 == SyntaxKind::Ident && v[pos as int].1
            == seq!['m', 'u', 't'] && jm < v.len() && (v[jm].0 == SyntaxKind::Ident || v[jm].0
            == SyntaxKind::Star);
        assert(took == take_mut);
    }
    let ghost acc = shape_all(ch@);
    let ghost q_a = q;
    let j = next_sig(t, q);
    proof {
        if j < t@.len() {
            assert(v[j as int] == t@[j as int]@);
        }
    }
    if j < t.len() && t[j].kind == SyntaxKind::Star {
        q = eat_trivia(t, q, &mut ch);
        q = bump(t, q, &mut ch);
        proof {
            assert(acc + tev(v, q_a as int, j as int) + tev(v, j as int, q as int) =~= acc + tev(
                v,
                q_a as int,
                q as int,
            ));
        }
    } else {
        q = sub_expr(t, q, 2, &mut ch);
    }
    let ghost acc1 = shape_all(ch@);
    if next_is(t, q, SyntaxKind::Colon) {
        q = eat_if(t, q, SyntaxKind::Colon, &mut ch);
        let j = next_sig(t, q);
        proof {
            if j < t@.len() {
                assert(v[j as int] == t@[j as int]@);
            }
        }
        if j < t.len() && t[j].kind != SyntaxKind::RBrace && t[j].kind != SyntaxKind::Comma {
            q = sub_expr(t, q, 11, &mut ch);
        }
    }
    (mk_node(SyntaxKind::Pair, ch), q)
}

/// `...e`, with `e` parsed at `level`, starting at the `...` at `q`.
fn parse_spread(t: &Vec<Token>, q: usize, level: u8) -> (r: (Element, usize))
    requires
        q < t@.len(),
        1 <= level <= 11,
    ensures
        q < r.1 <= t@.len(),
        leaves(r.0) == seg(t@, q as int, r.1 as int),
        shape(r.0) == g_spread(token_views(t@), q as int, level as int).0,
        r.1 == g_spread(token_views(t@), q as int, level as int).1,
    decreases t@.len() - q, 0nat,
{
    let mut sc: Vec<Element> = Vec::new();
    let q2 = bump(t, q, &mut sc);
    proof {
        lemma_seg_empty(t@, q as int);
        assert(Seq::<Ev>::empty() + tev(token_views(t@), q as int, q2 as int) =~= tev(
            token_views(t@),
            q as int,
            q2 as int,
        ));
    }
    let q3 = sub_expr(t, q2, level, &mut sc);
    (mk_node(SyntaxKind::SpreadExpr, sc), q3)
}

/// Appends the trivia from `p` and one entry of a collection: a spread
/// `...e`, else an element (arrays) or a pair (objects).
fn parse_entry(t: &Vec<Token>, p: usize, is_array: bool, ch: &mut Vec<Element>) -> (r: usize)
    requires
        p <= t@.len(),
    ensures
        p <= r <= t@.len(),
        p < t@.len() ==> r > p,
        leaves_all(final(ch)@) == leaves_all(old(ch)@) + seg(t@, p as int, r as int),
        r == g_entry(token_views(t@), p as int, is_array).1,
        shape_all(final(ch)@) == shape_all(old(ch)@) + g_entry(token_views(t@), p as int, is_array).0,
    decreases t@.len() - p, 27nat,
{
    let ghost v = token_views(t@);
    let j = next_sig(t, p);
    proof {
        if j < t@.len() {
            assert(v[j as int] == t@[j as int]@);
        }
    }
    let spread = j < t.len() && t[j].kind == SyntaxKind::DotDotDot;
    if is_array && !spread {
        return sub_expr(t, p, 11, ch);
    }
    let q = eat_trivia(t, p, ch);
    proof {
        if q < j {
            assert(is_trivia_kind(t@[q as int].kind));
        }
        if j < q {
            assert(is_trivia_kind(t@[j as int].kind));
        }
    }
    let ghost mid = leaves_all(ch@);
    let ghost smid = shape_all(ch@);
    let (e, r) = if spread {
        parse_spread(t, q, 10)
    } else {
        parse_pair(t, q)
    };
    push_elem(ch, e);
    proof {
        assert(smid + shape(e) =~= shape_all(old(ch)@) + (tev(v, p as int, q as int) + shape(e)));
        lemma_seg_join(t@, p as int, q as int, r as int);
        assert(mid + seg(t@, q as int, r as int) =~= leaves_all(old(ch)@) + seg(
            t@,
            p as int,
            r as int,
        ));
    }
    r
}

/// Arrays `[a, b]`, objects `{k: v}` and their comprehensions.
#[verifier::rlimit(40)]
fn parse_collection(t: &Vec<Token>, pos: usize, is_array: bool) -> (r: (Element, usize))
    requires
        pos < t@.len(),
    ensures
        pos < r.1 <= t@.len(),
        leaves(r.0) == seg(t@, pos as int, r.1 as int),
        shape(r.0) == g_collection(token_views(t@), pos as int, is_array).0,
        r.1 == g_collection(token_views(t@), pos as int, is_array).1,
    decreases t@.len() - pos, 0nat,
{
    let ghost v = token_views(t@);
    let close = if is_array {
        SyntaxKind::RBracket
    } else {
        SyntaxKind::RBrace
    };
    let mut ch: Vec<Element> = Vec::new();
    let mut p = bump(t, pos, &mut ch);
    proof {
        assert(Seq::<Ev>::empty() + tev(v, pos as int, p as int) =~= tev(v, pos as int, p as int));
    }
    let plain = if is_array {
        SyntaxKind::ArrayExpr
    } else {
        SyntaxKind::ObjectExpr
    };
    let j = next_sig(t, p);
    proof {
        if j < t@.len() {
            assert(v[j as int] == t@[j as int]@);
        }
    }
    if j >= t.len() || t[j].kind == close {
        p = eat_if(t, p, close, &mut ch);
        return (mk_node(plain, ch), p);
    }
    p = parse_entry(t, p, is_array, &mut ch);
    let ghost acc1 = shape_all(ch@);
    let ghost p1 = p;
    let j = next_sig(t, p);
    proof {
        if j < t@.len() {
            assert(v[j as int] == t@[j as int]@);
        }
    }
    if j < t.len() && (t[j].kind == SyntaxKind::KwFor || t[j].kind == SyntaxKind::KwWhile) {
        let is_for = t[j].kind == SyntaxKind::KwFor;
        p = eat_trivia(t, p, &mut ch);
        p = bump(t, p, &mut ch);
        proof {
            assert(acc1 + tev(v, p1 as int, j as int) + tev(v, j as int, p as int) =~= acc1 + tev(
                v,
                p1 as int,
                p as int,
            ));
        }
        let ghost acc2 = shape_all(ch@);
        let ghost p2 = p;
        if is_for {
            p = eat_trivia(t, p, &mut ch);
            let ghost q = p;
            let (ib, q2) = parse_iter_binding(t, p);
            push_elem(&mut ch, ib);
            p = q2;
            proof {
                assert(shape_all(ch@) == acc2 + tev(v, p2 as int, q as int) + shape(ib));
            }
        } else {
            p = sub_expr(t, p, 11, &mut ch);
        }
        let ghost acc3 = shape_all(ch@);
        let ghost p3 = p;
        p = eat_if(t, p, close, &mut ch);
        let kind = if is_array {
            SyntaxKind::ArrayComprehension
        } else {
            SyntaxKind::ObjectComprehension
        };
        return (mk_node(kind, ch), p);
    }
    let ghost c0 = g_colloop(v, p as int, is_array, shape_all(ch@));
    loop
        invariant_except_break
            g_colloop(v, p as int, is_array, shape_all(ch@)) == c0,
        invariant
            pos < p <= t@.len(),
            leaves_all(ch@) == seg(t@, pos as int, p as int),
            v == token_views(t@),
            close == close_kind(is_array),
        ensures
            pos < p <= t@.len(),
            leaves_all(ch@) == seg(t@, pos as int, p as int),
            (shape_all(ch@), p as int) == c0,
        decreases t@.len() - p,
    {
        let ghost acc = shape_all(ch@);
        let ghost p_in = p;
        let j = next_sig(t, p);
        if j >= t.len() {
            break;
        }
        proof {
            assert(v[j as int] == t@[j as int]@);
        }
        if t[j].kind == close {
            p = eat_if(t, p, close, &mut ch);
            break;
        }
        if t[j].kind == SyntaxKind::Comma {
            p = eat_trivia(t, p, &mut ch);
            p = bump(t, p, &mut ch);
            proof {
                assert(acc + tev(v, p_in as int, j as int) + tev(v, j as int, p as int) =~= acc + tev(
                    v,
                    p_in as int,
                    p as int,
                ));
            }
        } else {
            p = parse_entry(t, p, is_array, &mut ch);
        }
    }
    (mk_node(plain, ch), p)
}

/// Parses a whole token sequence into a `Root` node holding every token.
pub fn parse_tokens(t: &Vec<Token>) -> (r: Node)
    ensures
        r.kind == SyntaxKind::Root,
        leaves_all(r.children@) == token_views(t@),
        shape(Element::Node(r)) == parse_v(token_views(t@)),
{
    let ghost v = token_views(t@);
    let mut ch: Vec<Element> = Vec::new();
    let mut p: usize = 0;
    proof {
        lemma_seg_empty(t@, 0);
    }
    let ghost top0 = g_top(v, 0, Seq::empty());
    loop
        invariant_except_break
            g_top(v, p as int, shape_all(ch@)) == top0,
        invariant
            0 <= p <= t@.len(),
            leaves_all(ch@) == seg(t@, 0, p as int),
            v == token_views(t@),
        ensures
            p == t@.len(),
            leaves_all(ch@) == seg(t@, 0, p as int),
            shape_all(ch@) == top0,
        decreases t@.len() - p,
    {
        let ghost acc = shape_all(ch@);
        let ghost p_in = p;
        p = eat_trivia(t, p, &mut ch);
        if p >= t.len() {
            break;
        }
        let (item, q) = parse_item(t, p);
        push_elem(&mut ch, item);
        proof {
            lemma_seg_join(t@, 0, p as int, q as int);
        }
        p = q;
    }
    proof {
        assert(seg(t@, 0, t@.len() as int) =~= token_views(t@));
    }
    let root = Node { kind: SyntaxKind::Root, children: ch };
    proof {
        lemma_shape_node(root);
        reveal(parse_v);
    }
    root
}


/// Parses Rex source into a syntax tree that holds every character of the
/// source, in order: the tree whose outline the grammar gives for the
/// lexer's tokens of the source.
pub fn parse(source: &str) -> (r: Node)
    requires
        source@.len() + 4 <= usize::MAX,
    ensures
        r.kind == SyntaxKind::Root,
        concat_texts(leaves_all(r.children@)) == source@,
        leaves_all(r.children@) == crate::lexer::lex_v(source@),
        shape(Element::Node(r)) == parse_v(crate::lexer::lex_v(source@)),
        is_parse_of(r, source@),
{
    let tokens = lex(source);
    parse_tokens(&tokens)
}
} // verus!
