use rex_core::semantic::{semantic_tokens, SemanticToken};

fn tok(delta_line: u32, delta_start: u32, length: u32, token_type: u32, token_modifiers: u32) -> SemanticToken {
    SemanticToken { delta_line, delta_start, length, token_type, token_modifiers }
}

#[test]
fn semantic_tokens_classify_by_context() {
    let source = "x = str\nfoo(x)\nfor k, v in m do end\no.p";
    let got = semantic_tokens(source);
    assert_eq!(
        got,
        vec![
            tok(0, 0, 1, 0, 0),
            tok(0, 4, 3, 3, 0),
            tok(1, 0, 3, 2, 0),
            tok(0, 4, 1, 0, 0),
            tok(1, 4, 1, 4, 0),
            tok(0, 3, 1, 4, 0),
            tok(0, 5, 1, 0, 0),
            tok(1, 0, 1, 0, 0),
            tok(0, 2, 1, 1, 0),
        ]
    );
}

#[test]
fn semantic_tokens_keys_annotations_and_builtins() {
    let source = "{ a:1 }\nb: int\nisString(b)\nmut c = 2";
    let got = semantic_tokens(source);
    assert_eq!(
        got,
        vec![
            tok(0, 2, 1, 1, 0),
            tok(1, 0, 1, 0, 0),
            tok(0, 3, 3, 3, 0),
            tok(1, 0, 8, 2, 2),
            tok(0, 9, 1, 0, 0),
            tok(1, 4, 1, 0, 0),
        ]
    );
}

#[test]
fn semantic_tokens_empty_source() {
    assert!(semantic_tokens("").is_empty());
    assert!(semantic_tokens("1 + 2 // note").is_empty());
}
