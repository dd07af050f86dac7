use rex_core::syntax::SyntaxKind;

#[test]
fn trivia_classification() {
    assert!(SyntaxKind::Whitespace.is_trivia());
    assert!(SyntaxKind::LineComment.is_trivia());
    assert!(SyntaxKind::BlockComment.is_trivia());
    assert!(!SyntaxKind::Ident.is_trivia());
    assert!(!SyntaxKind::Plus.is_trivia());
}
