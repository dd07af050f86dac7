//! Typed views of syntax nodes: each wraps a node of one kind and gives its
//! parts by name.

use vstd::prelude::*;
use crate::syntax::{Element, Node, SyntaxKind, Token, first_child_index, is_trivia_kind};

verus! {

/// The child node at `i`, when that child is a node.
pub open spec fn child_node_at(children: Seq<Element>, i: int) -> Option<Node> {
    if 0 <= i < children.len() {
        match children[i] {
            Element::Node(n) => Option::Some(n),
            Element::Token(_) => Option::None,
        }
    } else {
        Option::None
    }
}

/// The first child node of `kind` under `node`.
pub open spec fn first_child_of_kind(node: Node, kind: SyntaxKind) -> Option<Node> {
    child_node_at(node.children@, first_child_index(node.children@, kind, 0))
}

/// The first child node of `kind`.
pub fn child_node(node: &Node, kind: SyntaxKind) -> (r: Option<&Node>)
    ensures
        match r {
            Option::Some(c) => first_child_of_kind(*node, kind) == Option::Some(*c) && c.kind
                == kind,
            Option::None => first_child_of_kind(*node, kind) is None,
        },
{
    match node.find_child(kind) {
        Option::Some(i) => match &node.children[i] {
            Element::Node(c) => {
                proof {
                    lemma_first_child_kind(node.children@, kind, 0);
                }
                Option::Some(c)
            },
            Element::Token(_) => {
                proof {
                    lemma_first_child_kind(node.children@, kind, 0);
                }
                Option::None
            },
        },
        Option::None => Option::None,
    }
}

/// The child that `first_child_index` finds is a node of that kind.
proof fn lemma_first_child_kind(children: Seq<Element>, kind: SyntaxKind, i: int)
    requires
        0 <= i,
    ensures
        first_child_index(children, kind, i) != -1 ==> i <= first_child_index(children, kind, i)
            < children.len(),
        first_child_index(children, kind, i) != -1 ==> (children[first_child_index(
            children,
            kind,
            i,
        )] matches Element::Node(n) && n.kind == kind),
    decreases children.len() - i,
{
    if i < children.len() {
        lemma_first_child_kind(children, kind, i + 1);
    }
}

/// Which tokens an accessor looks for.
#[derive(Clone, Copy, PartialEq, Eq, Structural)]
pub enum TokenClass {
    /// An operator of a binary expression.
    BinaryOp,
    /// An operator of an assignment.
    AssignOp,
    /// Any token but whitespace and comments.
    NonTrivia,
    /// The `when` or `unless` that opens a conditional.
    HeadKeyword,
    /// A `:`.
    Colon,
}

/// Whether a token of kind `k` belongs to `class`.
pub open spec fn in_class(class: TokenClass, k: SyntaxKind) -> bool {
    match class {
        TokenClass::BinaryOp => {
            ||| k == SyntaxKind::Plus
            ||| k == SyntaxKind::Minus
            ||| k == SyntaxKind::Star
            ||| k == SyntaxKind::Slash
            ||| k == SyntaxKind::Percent
            ||| k == SyntaxKind::Amp
            ||| k == SyntaxKind::Pipe
            ||| k == SyntaxKind::Caret
            ||| k == SyntaxKind::EqEq
            ||| k == SyntaxKind::BangEq
            ||| k == SyntaxKind::Gt
            ||| k == SyntaxKind::GtEq
            ||| k == SyntaxKind::Lt
            ||| k == SyntaxKind::LtEq
            ||| k == SyntaxKind::KwAnd
            ||| k == SyntaxKind::KwOr
        },
        TokenClass::AssignOp => {
            ||| k == SyntaxKind::ColonEq
            ||| k == SyntaxKind::Eq
            ||| k == SyntaxKind::PlusEq
            ||| k == SyntaxKind::MinusEq
            ||| k == SyntaxKind::StarEq
            ||| k == SyntaxKind::SlashEq
            ||| k == SyntaxKind::PercentEq
            ||| k == SyntaxKind::AmpEq
            ||| k == SyntaxKind::PipeEq
            ||| k == SyntaxKind::CaretEq
        },
        TokenClass::NonTrivia => !is_trivia_kind(k),
        TokenClass::HeadKeyword => k == SyntaxKind::KwWhen || k == SyntaxKind::KwUnless,
        TokenClass::Colon => k == SyntaxKind::Colon,
    }
}

/// Whether a token of kind `k` belongs to `class`.
pub fn class_has(class: TokenClass, k: SyntaxKind) -> (r: bool)
    ensures
        r == in_class(class, k),
{
    match class {
        TokenClass::BinaryOp => match k {
            SyntaxKind::Plus | SyntaxKind::Minus | SyntaxKind::Star | SyntaxKind::Slash
            | SyntaxKind::Percent | SyntaxKind::Amp | SyntaxKind::Pipe | SyntaxKind::Caret
            | SyntaxKind::EqEq | SyntaxKind::BangEq | SyntaxKind::Gt | SyntaxKind::GtEq
            | SyntaxKind::Lt | SyntaxKind::LtEq | SyntaxKind::KwAnd | SyntaxKind::KwOr => true,
            _ => false,
        },
        TokenClass::AssignOp => match k {
            SyntaxKind::ColonEq | SyntaxKind::Eq | SyntaxKind::PlusEq | SyntaxKind::MinusEq
            | SyntaxKind::StarEq | SyntaxKind::SlashEq | SyntaxKind::PercentEq
            | SyntaxKind::AmpEq | SyntaxKind::PipeEq | SyntaxKind::CaretEq => true,
            _ => false,
        },
        TokenClass::NonTrivia => !k.is_trivia(),
        TokenClass::HeadKeyword => k == SyntaxKind::KwWhen || k == SyntaxKind::KwUnless,
        TokenClass::Colon => k == SyntaxKind::Colon,
    }
}

/// Index of the first child token at or after `i` whose kind is in `class`, or -1.
pub open spec fn first_token_index(children: Seq<Element>, class: TokenClass, i: int) -> int
    decreases children.len() - i,
{
    if i < 0 || i >= children.len() {
        -1
    } else if children[i] matches Element::Token(t) && in_class(class, t.kind) {
        i
    } else {
        first_token_index(children, class, i + 1)
    }
}

/// The first child token of `node` whose kind is in `class`.
pub open spec fn first_token_of(node: Node, class: TokenClass) -> Option<Token> {
    let i = first_token_index(node.children@, class, 0);
    if i == -1 {
        Option::None
    } else {
        match node.children@[i] {
            Element::Token(t) => Option::Some(t),
            Element::Node(_) => Option::None,
        }
    }
}

/// Index of the first child node at or after `i`, or -1.
pub open spec fn first_node_index(children: Seq<Element>, i: int) -> int
    decreases children.len() - i,
{
    if i < 0 || i >= children.len() {
        -1
    } else if children[i] is Node {
        i
    } else {
        first_node_index(children, i + 1)
    }
}

/// The first child node of `node`, of any kind.
pub open spec fn first_node_of(node: Node) -> Option<Node> {
    child_node_at(node.children@, first_node_index(node.children@, 0))
}

/// The second child node of `node`, of any kind.
pub open spec fn second_node_of(node: Node) -> Option<Node> {
    let a = first_node_index(node.children@, 0);
    if a == -1 {
        Option::None
    } else {
        child_node_at(node.children@, first_node_index(node.children@, a + 1))
    }
}

/// The first child token of `node` whose kind is in `class`.
pub fn first_token(node: &Node, class: TokenClass) -> (r: Option<&Token>)
    ensures
        match r {
            Option::Some(t) => first_token_of(*node, class) == Option::Some(*t),
            Option::None => first_token_of(*node, class) is None,
        },
{
    let mut i: usize = 0;
    while i < node.children.len()
        invariant
            0 <= i <= node.children@.len(),
            first_token_index(node.children@, class, 0) == first_token_index(
                node.children@,
                class,
                i as int,
            ),
        decreases node.children@.len() - i,
    {
        match &node.children[i] {
            Element::Token(t) => {
                if class_has(class, t.kind) {
                    return Option::Some(t);
                }
            },
            Element::Node(_) => {},
        }
        i += 1;
    }
    Option::None
}

/// The first child node at or after index `from`, with its index.
fn node_from(node: &Node, from: usize) -> (r: Option<(usize, &Node)>)
    ensures
        match r {
            Option::Some((i, n)) => first_node_index(node.children@, from as int) == i && i
                < node.children.len() && child_node_at(node.children@, i as int) == Option::Some(
                *n),
            Option::None => first_node_index(node.children@, from as int) == -1,
        },
{
    let mut i: usize = from;
    while i < node.children.len()
        invariant
            from <= i,
            first_node_index(node.children@, from as int) == first_node_index(
                node.children@,
                i as int,
            ),
        decreases node.children@.len() - i,
    {
        match &node.children[i] {
            Element::Node(n) => {
                return Option::Some((i, n));
            },
            Element::Token(_) => {},
        }
        i += 1;
    }
    Option::None
}

/// A binary operation.
pub struct BinaryExpr<'a> {
    pub syntax: &'a Node,
}

/// A prefix operation.
pub struct UnaryExpr<'a> {
    pub syntax: &'a Node,
}

/// An assignment.
pub struct AssignExpr<'a> {
    pub syntax: &'a Node,
}

/// An object literal.
pub struct ObjectExpr<'a> {
    pub syntax: &'a Node,
}

/// A `key: value` pair.
pub struct Pair<'a> {
    pub syntax: &'a Node,
}

impl<'a> BinaryExpr<'a> {
    /// The node as a binary operation, when it is one.
    pub fn cast(node: &'a Node) -> (r: Option<BinaryExpr<'a>>)
        ensures
            r is Some <==> node.kind == SyntaxKind::BinaryExpr,
            r matches Option::Some(c) ==> *c.syntax == *node,
    {
        if node.kind == SyntaxKind::BinaryExpr {
            Option::Some(BinaryExpr { syntax: node })
        } else {
            Option::None
        }
    }

    /// The left operand: the first child node.
    pub fn lhs(&self) -> (r: Option<&'a Node>)
        ensures
            match r {
                Option::Some(n) => first_node_of(*self.syntax) == Option::Some(*n),
                Option::None => first_node_of(*self.syntax) is None,
            },
    {
        match node_from(self.syntax, 0) {
            Option::Some((_, n)) => Option::Some(n),
            Option::None => Option::None,
        }
    }

    /// The operator token.
    pub fn op(&self) -> (r: Option<&'a Token>)
        ensures
            match r {
                Option::Some(t) => first_token_of(*self.syntax, TokenClass::BinaryOp)
                    == Option::Some(*t),
                Option::None => first_token_of(*self.syntax, TokenClass::BinaryOp) is None,
            },
    {
        first_token(self.syntax, TokenClass::BinaryOp)
    }

    /// The right operand: the second child node.
    pub fn rhs(&self) -> (r: Option<&'a Node>)
        ensures
            match r {
                Option::Some(n) => second_node_of(*self.syntax) == Option::Some(*n),
                Option::None => second_node_of(*self.syntax) is None,
            },
    {
        match node_from(self.syntax, 0) {
            Option::Some((i, _)) => {
                match node_from(self.syntax, i + 1) {
                    Option::Some((_, n)) => Option::Some(n),
                    Option::None => Option::None,
                }
            },
            Option::None => Option::None,
        }
    }
}

impl<'a> UnaryExpr<'a> {
    /// The node as a prefix operation, when it is one.
    pub fn cast(node: &'a Node) -> (r: Option<UnaryExpr<'a>>)
        ensures
            r is Some <==> node.kind == SyntaxKind::UnaryExpr,
            r matches Option::Some(c) ==> *c.syntax == *node,
    {
        if node.kind == SyntaxKind::UnaryExpr {
            Option::Some(UnaryExpr { syntax: node })
        } else {
            Option::None
        }
    }

    /// The operator: the first token that is not whitespace or a comment.
    pub fn op(&self) -> (r: Option<&'a Token>)
        ensures
            match r {
                Option::Some(t) => first_token_of(*self.syntax, TokenClass::NonTrivia)
                    == Option::Some(*t),
                Option::None => first_token_of(*self.syntax, TokenClass::NonTrivia) is None,
            },
    {
        first_token(self.syntax, TokenClass::NonTrivia)
    }

    /// The operand: the first child node.
    pub fn operand(&self) -> (r: Option<&'a Node>)
        ensures
            match r {
                Option::Some(n) => first_node_of(*self.syntax) == Option::Some(*n),
                Option::None => first_node_of(*self.syntax) is None,
            },
    {
        match node_from(self.syntax, 0) {
            Option::Some((_, n)) => Option::Some(n),
            Option::None => Option::None,
        }
    }
}

impl<'a> AssignExpr<'a> {
    /// The node as an assignment, when it is one.
    pub fn cast(node: &'a Node) -> (r: Option<AssignExpr<'a>>)
        ensures
            r is Some <==> node.kind == SyntaxKind::AssignExpr,
            r matches Option::Some(c) ==> *c.syntax == *node,
    {
        if node.kind == SyntaxKind::AssignExpr {
            Option::Some(AssignExpr { syntax: node })
        } else {
            Option::None
        }
    }

    /// The assignment operator token.
    pub fn op(&self) -> (r: Option<&'a Token>)
        ensures
            match r {
                Option::Some(t) => first_token_of(*self.syntax, TokenClass::AssignOp)
                    == Option::Some(*t),
                Option::None => first_token_of(*self.syntax, TokenClass::AssignOp) is None,
            },
    {
        first_token(self.syntax, TokenClass::AssignOp)
    }
}

impl<'a> ObjectExpr<'a> {
    /// The node as an object literal, when it is one.
    pub fn cast(node: &'a Node) -> (r: Option<ObjectExpr<'a>>)
        ensures
            r is Some <==> node.kind == SyntaxKind::ObjectExpr,
            r matches Option::Some(c) ==> *c.syntax == *node,
    {
        if node.kind == SyntaxKind::ObjectExpr {
            Option::Some(ObjectExpr { syntax: node })
        } else {
            Option::None
        }
    }
}

impl<'a> Pair<'a> {
    /// The node as a pair, when it is one.
    pub fn cast(node: &'a Node) -> (r: Option<Pair<'a>>)
        ensures
            r is Some <==> node.kind == SyntaxKind::Pair,
            r matches Option::Some(c) ==> *c.syntax == *node,
    {
        if node.kind == SyntaxKind::Pair {
            Option::Some(Pair { syntax: node })
        } else {
            Option::None
        }
    }

    /// The `:` between key and value.
    pub fn colon(&self) -> (r: Option<&'a Token>)
        ensures
            match r {
                Option::Some(t) => first_token_of(*self.syntax, TokenClass::Colon)
                    == Option::Some(*t),
                Option::None => first_token_of(*self.syntax, TokenClass::Colon) is None,
            },
    {
        first_token(self.syntax, TokenClass::Colon)
    }
}

/// A `when`/`unless` conditional.
pub struct ConditionalExpr<'a> {
    pub syntax: &'a Node,
}

/// An `else` branch of a conditional.
pub struct ElseBranch<'a> {
    pub syntax: &'a Node,
}

/// A `for` loop.
pub struct ForExpr<'a> {
    pub syntax: &'a Node,
}

/// A `while` loop.
pub struct WhileExpr<'a> {
    pub syntax: &'a Node,
}

/// A block of statements.
pub struct Block<'a> {
    pub syntax: &'a Node,
}

/// The binding of a `for` loop.
pub struct IterBinding<'a> {
    pub syntax: &'a Node,
}

impl<'a> ConditionalExpr<'a> {
    /// The node as a conditional, when it is one.
    pub fn cast(node: &'a Node) -> (r: Option<ConditionalExpr<'a>>)
        ensures
            r is Some <==> node.kind == SyntaxKind::ConditionalExpr,
            r matches Option::Some(c) ==> *c.syntax == *node,
    {
        if node.kind == SyntaxKind::ConditionalExpr {
            Option::Some(ConditionalExpr { syntax: node })
        } else {
            Option::None
        }
    }

    /// The `when` or `unless` keyword.
    pub fn head_keyword(&self) -> (r: Option<&'a Token>)
        ensures
            match r {
                Option::Some(t) => first_token_of(*self.syntax, TokenClass::HeadKeyword)
                    == Option::Some(*t),
                Option::None => first_token_of(*self.syntax, TokenClass::HeadKeyword) is None,
            },
    {
        first_token(self.syntax, TokenClass::HeadKeyword)
    }

    /// The block run when the condition holds.
    pub fn block(&self) -> (r: Option<Block<'a>>)
        ensures
            match r {
                Option::Some(b) => first_child_of_kind(*self.syntax, SyntaxKind::Block)
                    == Option::Some(*b.syntax),
                Option::None => first_child_of_kind(*self.syntax, SyntaxKind::Block) is None,
            },
    {
        match child_node(self.syntax, SyntaxKind::Block) {
            Option::Some(n) => Option::Some(Block { syntax: n }),
            Option::None => Option::None,
        }
    }

    /// The `else` branch, if any.
    pub fn else_branch(&self) -> (r: Option<ElseBranch<'a>>)
        ensures
            match r {
                Option::Some(b) => first_child_of_kind(*self.syntax, SyntaxKind::ElseBranch)
                    == Option::Some(*b.syntax),
                Option::None => first_child_of_kind(*self.syntax, SyntaxKind::ElseBranch) is None,
            },
    {
        match child_node(self.syntax, SyntaxKind::ElseBranch) {
            Option::Some(n) => Option::Some(ElseBranch { syntax: n }),
            Option::None => Option::None,
        }
    }
}

impl<'a> ElseBranch<'a> {
    /// The block of this branch.
    pub fn block(&self) -> (r: Option<Block<'a>>)
        ensures
            match r {
                Option::Some(b) => first_child_of_kind(*self.syntax, SyntaxKind::Block)
                    == Option::Some(*b.syntax),
                Option::None => first_child_of_kind(*self.syntax, SyntaxKind::Block) is None,
            },
    {
        match child_node(self.syntax, SyntaxKind::Block) {
            Option::Some(n) => Option::Some(Block { syntax: n }),
            Option::None => Option::None,
        }
    }

    /// The next `else` branch of a chain, if any.
    pub fn nested_else(&self) -> (r: Option<ElseBranch<'a>>)
        ensures
            match r {
                Option::Some(b) => first_child_of_kind(*self.syntax, SyntaxKind::ElseBranch)
                    == Option::Some(*b.syntax),
                Option::None => first_child_of_kind(*self.syntax, SyntaxKind::ElseBranch) is None,
            },
    {
        match child_node(self.syntax, SyntaxKind::ElseBranch) {
            Option::Some(n) => Option::Some(ElseBranch { syntax: n }),
            Option::None => Option::None,
        }
    }
}

impl<'a> ForExpr<'a> {
    /// The node as a `for` loop, when it is one.
    pub fn cast(node: &'a Node) -> (r: Option<ForExpr<'a>>)
        ensures
            r is Some <==> node.kind == SyntaxKind::ForExpr,
            r matches Option::Some(c) ==> *c.syntax == *node,
    {
        if node.kind == SyntaxKind::ForExpr {
            Option::Some(ForExpr { syntax: node })
        } else {
            Option::None
        }
    }

    /// The loop's binding: names and iterable.
    pub fn binding(&self) -> (r: Option<IterBinding<'a>>)
        ensures
            match r {
                Option::Some(b) => first_child_of_kind(*self.syntax, SyntaxKind::IterBinding)
                    == Option::Some(*b.syntax),
                Option::None => first_child_of_kind(*self.syntax, SyntaxKind::IterBinding) is None,
            },
    {
        match child_node(self.syntax, SyntaxKind::IterBinding) {
            Option::Some(n) => Option::Some(IterBinding { syntax: n }),
            Option::None => Option::None,
        }
    }

    /// The loop body.
    pub fn block(&self) -> (r: Option<Block<'a>>)
        ensures
            match r {
                Option::Some(b) => first_child_of_kind(*self.syntax, SyntaxKind::Block)
                    == Option::Some(*b.syntax),
                Option::None => first_child_of_kind(*self.syntax, SyntaxKind::Block) is None,
            },
    {
        match child_node(self.syntax, SyntaxKind::Block) {
            Option::Some(n) => Option::Some(Block { syntax: n }),
            Option::None => Option::None,
        }
    }
}

impl<'a> WhileExpr<'a> {
    /// The loop body.
    pub fn block(&self) -> (r: Option<Block<'a>>)
        ensures
            match r {
                Option::Some(b) => first_child_of_kind(*self.syntax, SyntaxKind::Block)
                    == Option::Some(*b.syntax),
                Option::None => first_child_of_kind(*self.syntax, SyntaxKind::Block) is None,
            },
    {
        match child_node(self.syntax, SyntaxKind::Block) {
            Option::Some(n) => Option::Some(Block { syntax: n }),
            Option::None => Option::None,
        }
    }
}

} // verus!
