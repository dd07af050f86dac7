//! Syntax kinds, tokens and the lossless concrete syntax tree.

use vstd::prelude::*;

verus! {

/// Unified kind for both leaf tokens and composite tree nodes.
#[derive(Debug, Clone, Copy, PartialEq, Eq, Structural)]
pub enum SyntaxKind {
    // ── Leaf tokens ──────────────────────────────────────────────────
    KwAnd,
    KwBreak,
    KwContinue,
    KwDelete,
    KwDo,
    KwElse,
    KwEnd,
    KwExtern,
    KwFalse,
    KwFor,
    KwIn,
    KwInf,
    KwNan,
    KwNot,
    KwNull,
    KwOf,
    KwOr,
    KwReturn,
    KwTrue,
    KwType,
    KwNone,
    KwUnless,
    KwWhen,
    KwWhile,
    Ident,
    HexNumber,
    BinaryNumber,
    DecimalNumber,
    DoubleString,
    SingleString,
    TemplateLiteral,
    Arrow,
    ColonEq,
    EqEq,
    BangEq,
    GtEq,
    LtEq,
    PlusEq,
    MinusEq,
    StarEq,
    SlashEq,
    PercentEq,
    AmpEq,
    PipeEq,
    CaretEq,
    DotDot,
    DotDotDot,
    DotParen,
    Plus,
    Minus,
    Star,
    Slash,
    Percent,
    Amp,
    Pipe,
    Caret,
    Tilde,
    Eq,
    Gt,
    Lt,
    Dot,
    Comma,
    Colon,
    Semicolon,
    Hash,
    At,
    LParen,
    RParen,
    LBracket,
    RBracket,
    LBrace,
    RBrace,
    LineComment,
    BlockComment,
    Whitespace,
    Error,
    // ── Composite nodes ──────────────────────────────────────────────
    Program,
    BinaryExpr,
    UnaryExpr,
    AssignExpr,
    RangeExpr,
    CallExpr,
    NavExpr,
    GroupExpr,
    SelfExpr,
    ConditionalExpr,
    ElseBranch,
    ForExpr,
    WhileExpr,
    Block,
    ArrayExpr,
    IndexedArrayExpr,
    ArrayComprehension,
    ObjectExpr,
    IndexedObjectExpr,
    ObjectComprehension,
    Pair,
    SpreadExpr,
    IterBinding,
    TemplateExpr,
    TypeDecl,
    ExternDecl,
    ReturnExpr,
    CompoundExpr,
    /// The root of every tree.
    Root,
}

/// Marker for the Rex language of syntax trees.
#[derive(Debug, Clone, Copy, PartialEq, Eq, Structural)]
pub enum RexLang {
    Rex,
}

pub open spec fn is_trivia_kind(k: SyntaxKind) -> bool {
    k == SyntaxKind::Whitespace || k == SyntaxKind::LineComment || k == SyntaxKind::BlockComment
}

pub open spec fn is_keyword_kind(k: SyntaxKind) -> bool {
    ||| k == SyntaxKind::KwAnd
    ||| k == SyntaxKind::KwBreak
    ||| k == SyntaxKind::KwContinue
    ||| k == SyntaxKind::KwDelete
    ||| k == SyntaxKind::KwDo
    ||| k == SyntaxKind::KwElse
    ||| k == SyntaxKind::KwEnd
    ||| k == SyntaxKind::KwExtern
    ||| k == SyntaxKind::KwFalse
    ||| k == SyntaxKind::KwFor
    ||| k == SyntaxKind::KwIn
    ||| k == SyntaxKind::KwInf
    ||| k == SyntaxKind::KwNan
    ||| k == SyntaxKind::KwNot
    ||| k == SyntaxKind::KwNull
    ||| k == SyntaxKind::KwOf
    ||| k == SyntaxKind::KwOr
    ||| k == SyntaxKind::KwReturn
    ||| k == SyntaxKind::KwTrue
    ||| k == SyntaxKind::KwType
    ||| k == SyntaxKind::KwNone
    ||| k == SyntaxKind::KwUnless
    ||| k == SyntaxKind::KwWhen
    ||| k == SyntaxKind::KwWhile
}

impl SyntaxKind {
    /// Whitespace and comments.
    pub fn is_trivia(self) -> (r: bool)
        ensures
            r == is_trivia_kind(self),
    {
        match self {
            SyntaxKind::Whitespace | SyntaxKind::LineComment | SyntaxKind::BlockComment => true,
            _ => false,
        }
    }

    /// Keyword tokens, all of which can appear as property names after `.`.
    pub fn is_keyword(self) -> (r: bool)
        ensures
            r == is_keyword_kind(self),
    {
        match self {
            SyntaxKind::KwAnd | SyntaxKind::KwBreak | SyntaxKind::KwContinue | SyntaxKind::KwDelete
            | SyntaxKind::KwDo | SyntaxKind::KwElse | SyntaxKind::KwEnd | SyntaxKind::KwExtern
            | SyntaxKind::KwFalse | SyntaxKind::KwFor | SyntaxKind::KwIn | SyntaxKind::KwInf
            | SyntaxKind::KwNan | SyntaxKind::KwNot | SyntaxKind::KwNull | SyntaxKind::KwOf
            | SyntaxKind::KwOr | SyntaxKind::KwReturn | SyntaxKind::KwTrue | SyntaxKind::KwType
            | SyntaxKind::KwNone | SyntaxKind::KwUnless | SyntaxKind::KwWhen
            | SyntaxKind::KwWhile => true,
            _ => false,
        }
    }
}

/// A leaf of the syntax tree: a kind and the exact source text it covers.
pub struct Token {
    pub kind: SyntaxKind,
    pub text: Vec<char>,
}

impl View for Token {
    type V = (SyntaxKind, Seq<char>);

    open spec fn view(&self) -> (SyntaxKind, Seq<char>) {
        (self.kind, self.text@)
    }
}

impl Token {
    /// A copy of this token.
    pub fn copy(&self) -> (r: Token)
        ensures
            r@ == self@,
    {
        Token { kind: self.kind, text: self.text.clone() }
    }
}

/// A node or a token.
pub enum Element {
    Token(Token),
    Node(Node),
}

/// An inner node: a kind and its children in source order.
pub struct Node {
    pub kind: SyntaxKind,
    pub children: Vec<Element>,
}

/// The tokens under an element, in order.
pub open spec fn leaves(e: Element) -> Seq<(SyntaxKind, Seq<char>)>
    decreases e, 1nat,
{
    match e {
        Element::Token(t) => seq![t@],
        Element::Node(n) => leaves_all(n.children@),
    }
}

/// The tokens under a sequence of elements, in order.
pub open spec fn leaves_all(es: Seq<Element>) -> Seq<(SyntaxKind, Seq<char>)>
    decreases es, 0nat,
{
    if es.len() == 0 {
        Seq::empty()
    } else {
        proof {
            assert(decreases_to!(es => es.drop_last()));
        }
        leaves_all(es.drop_last()) + leaves(es.last())
    }
}

/// The source text covered by a sequence of tokens.
pub open spec fn concat_texts(ts: Seq<(SyntaxKind, Seq<char>)>) -> Seq<char>
    decreases ts.len(),
{
    if ts.len() == 0 {
        Seq::empty()
    } else {
        concat_texts(ts.drop_last()) + ts.last().1
    }
}

/// The source text covered by an element.
pub open spec fn text_of(e: Element) -> Seq<char> {
    concat_texts(leaves(e))
}

/// The views of a vector of tokens.
pub open spec fn token_views(ts: Seq<Token>) -> Seq<(SyntaxKind, Seq<char>)> {
    Seq::new(ts.len(), |i: int| ts[i]@)
}

/// The leaves of a node are the leaves of its children.
pub proof fn lemma_leaves_node(n: Node)
    ensures
        leaves(Element::Node(n)) == leaves_all(n.children@),
{
    let e = Element::Node(n);
    assert(e matches Element::Node(m) && m == n);
}

/// The leaves of a token are that token.
pub proof fn lemma_leaves_token(t: Token)
    ensures
        leaves(Element::Token(t)) == seq![t@],
{
    let e = Element::Token(t);
    assert(e matches Element::Token(u) && u == t);
}

/// Adding one element adds its leaves at the end.
pub proof fn lemma_leaves_all_push(es: Seq<Element>, e: Element)
    ensures
        leaves_all(es.push(e)) == leaves_all(es) + leaves(e),
{
    assert(es.push(e).drop_last() =~= es);
}

/// The leaves of a concatenation are the concatenation of the leaves.
pub proof fn lemma_leaves_all_append(a: Seq<Element>, b: Seq<Element>)
    ensures
        leaves_all(a + b) == leaves_all(a) + leaves_all(b),
    decreases b.len(),
{
    if b.len() == 0 {
        assert(a + b =~= a);
        assert(leaves_all(b) =~= Seq::empty());
        assert(leaves_all(a) + leaves_all(b) =~= leaves_all(a));
    } else {
        lemma_leaves_all_append(a, b.drop_last());
        assert((a + b).drop_last() =~= a + b.drop_last());
        assert(leaves_all(a) + (leaves_all(b.drop_last()) + leaves(b.last())) =~= (leaves_all(a)
            + leaves_all(b.drop_last())) + leaves(b.last()));
    }
}

/// The text of a concatenation of token runs is the concatenation of their texts.
pub proof fn lemma_concat_texts_append(a: Seq<(SyntaxKind, Seq<char>)>, b: Seq<(SyntaxKind, Seq<char>)>)
    ensures
        concat_texts(a + b) == concat_texts(a) + concat_texts(b),
    decreases b.len(),
{
    if b.len() == 0 {
        assert(a + b =~= a);
        assert(concat_texts(a) + concat_texts(b) =~= concat_texts(a));
    } else {
        lemma_concat_texts_append(a, b.drop_last());
        assert((a + b).drop_last() =~= a + b.drop_last());
        assert(concat_texts(a) + (concat_texts(b.drop_last()) + b.last().1) =~= (concat_texts(a)
            + concat_texts(b.drop_last())) + b.last().1);
    }
}

/// A typed view of a node of a given kind: the first child node of `kind`.
pub open spec fn first_child_index(children: Seq<Element>, kind: SyntaxKind, i: int) -> int
    decreases children.len() - i,
{
    if i < 0 || i >= children.len() {
        -1
    } else if children[i] matches Element::Node(n) && n.kind == kind {
        i
    } else {
        first_child_index(children, kind, i + 1)
    }
}

impl Node {
    /// Index of the first child node of `kind`.
    pub fn find_child(&self, kind: SyntaxKind) -> (r: Option<usize>)
        ensures
            match r {
                Option::Some(i) => first_child_index(self.children@, kind, 0) == i && i
                    < self.children@.len(),
                Option::None => first_child_index(self.children@, kind, 0) == -1,
            },
    {
        let mut i: usize = 0;
        while i < self.children.len()
            invariant
                0 <= i <= self.children@.len(),
                first_child_index(self.children@, kind, 0) == first_child_index(
                    self.children@,
                    kind,
                    i as int,
                ),
            decreases self.children@.len() - i,
        {
            match &self.children[i] {
                Element::Node(n) => {
                    if n.kind == kind {
                        return Option::Some(i);
                    }
                },
                Element::Token(_) => {},
            }
            i += 1;
        }
        Option::None
    }
}

/// The views of the tokens from `a` to `b`.
pub open spec fn seg(t: Seq<Token>, a: int, b: int) -> Seq<(SyntaxKind, Seq<char>)> {
    token_views(t).subrange(a, b)
}

pub proof fn lemma_seg_join(t: Seq<Token>, a: int, b: int, c: int)
    requires
        0 <= a <= b <= c <= t.len(),
    ensures
        seg(t, a, b) + seg(t, b, c) == seg(t, a, c),
{
    assert(seg(t, a, b) + seg(t, b, c) =~= seg(t, a, c));
}

/// Adjacent segments join; used implicitly throughout the parser.
pub broadcast proof fn lemma_seg_join_auto(t: Seq<Token>, a: int, b: int, c: int)
    requires
        0 <= a <= b <= c <= t.len(),
    ensures
        #[trigger] (seg(t, a, b) + seg(t, b, c)) == seg(t, a, c),
{
    lemma_seg_join(t, a, b, c);
}

} // verus!
