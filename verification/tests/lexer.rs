use rex_core::lexer::lex;
use rex_core::syntax::SyntaxKind;
use rex_core::syntax::SyntaxKind::{
    BlockComment, ColonEq, DecimalNumber, DotDot, DotDotDot, DoubleString, EqEq, Error, HexNumber,
    Ident, KwWhen, LineComment, TemplateLiteral, Whitespace,
};

fn kinds_and_texts(src: &str) -> Vec<(SyntaxKind, String)> {
    lex(src).into_iter().map(|t| (t.kind, t.text.iter().collect())).collect()
}

#[test]
fn lexes_operators_by_longest_spelling() {
    assert_eq!(
        kinds_and_texts("a==b ...c .. d := 1"),
        vec![
            (Ident, "a".to_string()),
            (EqEq, "==".to_string()),
            (Ident, "b".to_string()),
            (Whitespace, " ".to_string()),
            (DotDotDot, "...".to_string()),
            (Ident, "c".to_string()),
            (Whitespace, " ".to_string()),
            (DotDot, "..".to_string()),
            (Whitespace, " ".to_string()),
            (Ident, "d".to_string()),
            (Whitespace, " ".to_string()),
            (ColonEq, ":=".to_string()),
            (Whitespace, " ".to_string()),
            (DecimalNumber, "1".to_string()),
        ]
    );
}

#[test]
fn lexes_keywords_identifiers_comments_and_literals() {
    assert_eq!(
        kinds_and_texts("when my-var // note\n\"s\" 0x1F `t${x}` /* b */"),
        vec![
            (KwWhen, "when".to_string()),
            (Whitespace, " ".to_string()),
            (Ident, "my-var".to_string()),
            (Whitespace, " ".to_string()),
            (LineComment, "// note\n".to_string()),
            (DoubleString, "\"s\"".to_string()),
            (Whitespace, " ".to_string()),
            (HexNumber, "0x1F".to_string()),
            (Whitespace, " ".to_string()),
            (TemplateLiteral, "`t${x}`".to_string()),
            (Whitespace, " ".to_string()),
            (BlockComment, "/* b */".to_string()),
        ]
    );
}

#[test]
fn unknown_characters_are_single_error_tokens() {
    assert_eq!(
        kinds_and_texts("a $ b"),
        vec![
            (Ident, "a".to_string()),
            (Whitespace, " ".to_string()),
            (Error, "$".to_string()),
            (Whitespace, " ".to_string()),
            (Ident, "b".to_string()),
        ]
    );
}

#[test]
fn tokens_cover_the_source() {
    let src = "x = [1, 2.5e3, 'q'] # é";
    let joined: String = lex(src).iter().flat_map(|t| t.text.iter()).collect();
    assert_eq!(joined, src);
}

#[test]
fn lex_takes_longest_tokens() {
    let toks = lex("a...b>=0x1f//c\n");
    let kinds: Vec<_> = toks.iter().map(|t| t.kind).collect();
    assert_eq!(
        kinds,
        vec![Ident, DotDotDot, Ident, SyntaxKind::GtEq, HexNumber, LineComment]
    );
    let texts: Vec<String> = toks.iter().map(|t| t.text.iter().collect()).collect();
    assert_eq!(texts, vec!["a", "...", "b", ">=", "0x1f", "//c\n"]);
}
