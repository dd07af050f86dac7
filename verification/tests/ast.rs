use rex_core::ast::{AssignExpr, BinaryExpr, ConditionalExpr, ForExpr, ObjectExpr, Pair, UnaryExpr};
use rex_core::parser::parse;
use rex_core::syntax::{Element, Node, SyntaxKind, Token};

fn first_node<'a, T>(root: &'a Node, cast: fn(&'a Node) -> Option<T>) -> T {
    root.children
        .iter()
        .find_map(|c| match c {
            Element::Node(n) => cast(n),
            Element::Token(_) => None,
        })
        .expect("expected matching AST node")
}

fn text(t: &Token) -> String {
    t.text.iter().collect()
}

#[test]
fn binary_expr_accessors() {
    let root = parse("1 + 2");
    let bin = first_node(&root, BinaryExpr::cast);
    assert_eq!(text(bin.op().unwrap()), "+");
}

#[test]
fn conditional_accessors() {
    let root = parse("when x do y end");
    let cond = first_node(&root, ConditionalExpr::cast);
    assert_eq!(text(cond.head_keyword().unwrap()), "when");
    assert!(cond.block().is_some());
    assert!(cond.else_branch().is_none());
}

#[test]
fn conditional_with_else() {
    let root = parse("when x do 1 else 2 end");
    let cond = first_node(&root, ConditionalExpr::cast);
    let else_br = cond.else_branch().unwrap();
    assert!(else_br.block().is_some());
}

#[test]
fn for_expr_accessors() {
    let root = parse("for x in items do x end");
    let f = first_node(&root, ForExpr::cast);
    assert!(f.binding().is_some());
    assert!(f.block().is_some());
}

#[test]
fn object_pair_accessors() {
    let root = parse("{a: 1}");
    let obj = first_node(&root, ObjectExpr::cast);
    let pair: Pair = first_node(obj.syntax, Pair::cast);
    assert!(pair.colon().is_some());
}

#[test]
fn binary_operands_are_the_two_child_nodes() {
    let root = parse("(a) * [b]");
    let bin = first_node(&root, BinaryExpr::cast);
    assert_eq!(bin.lhs().unwrap().kind, SyntaxKind::GroupExpr);
    assert_eq!(bin.rhs().unwrap().kind, SyntaxKind::ArrayExpr);
    assert_eq!(text(bin.op().unwrap()), "*");
}

#[test]
fn atoms_are_tokens_so_plain_operands_are_not_nodes() {
    let root = parse("a * b");
    let bin = first_node(&root, BinaryExpr::cast);
    assert!(bin.lhs().is_none());
    assert!(bin.rhs().is_none());
}

#[test]
fn unary_and_assign_accessors() {
    let root = parse("-(x)");
    let un = first_node(&root, UnaryExpr::cast);
    assert_eq!(text(un.op().unwrap()), "-");
    assert_eq!(un.operand().unwrap().kind, SyntaxKind::GroupExpr);

    let root = parse("x += 1");
    let asg = first_node(&root, AssignExpr::cast);
    assert_eq!(text(asg.op().unwrap()), "+=");
}
