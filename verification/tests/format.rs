use rex_core::format as fmt;

#[test]
fn simple_assignment() { assert_eq!(fmt::format("x = 42"), "x = 42\n"); }

#[test]
fn binary_expr() {
    assert_eq!(fmt::format("1+2"), "1 + 2\n");
    assert_eq!(fmt::format("1  +  2"), "1 + 2\n");
}

#[test]
fn when_inline() { assert_eq!(fmt::format("when x do y end"), "when x do y end\n"); }

#[test]
fn when_multiline() {
    assert_eq!(fmt::format("when x do\n  y\n  z\nend"), "when x do\n  y\n  z\nend\n");
}

#[test]
fn when_else() {
    assert_eq!(
        fmt::format("when x do\n  1\nelse\n  2\nend"),
        "when x do\n  1\nelse\n  2\nend\n"
    );
}

#[test]
fn for_loop() {
    assert_eq!(fmt::format("for v in items do\n  v\nend"), "for v in items do\n  v\nend\n");
}

#[test]
fn preserves_comments() {
    let out = fmt::format("// hello\nx = 1");
    assert!(out.contains("// hello") && out.contains("x = 1"), "{out}");
}

#[test]
fn preserves_type_annotation() { assert!(fmt::format("bonus: int = 10").contains(": int")); }

#[test]
fn preserves_extern() { assert!(fmt::format("extern config = unknown").contains("extern config")); }

#[test]
fn preserves_dynamic_nav() { assert!(fmt::format("grades.(subj)").contains(".(subj)")); }

#[test]
fn inline_array() { assert_eq!(fmt::format("[1, 2, 3]"), "[ 1, 2, 3 ]\n"); }

#[test]
fn inline_array_no_commas() { assert_eq!(fmt::format("[1 2 3]"), "[ 1 2 3 ]\n"); }

#[test]
fn empty_collections() {
    assert_eq!(fmt::format("[]"), "[]\n");
    assert_eq!(fmt::format("{}"), "{}\n");
}

#[test]
fn inline_object() {
    assert_eq!(fmt::format("{a: 1 b: 2}"), "{ a:1 b:2 }\n");
    assert_eq!(fmt::format("{a: 1, b: 2}"), "{ a:1 b:2 }\n");
}

#[test]
fn navigation() { assert_eq!(fmt::format("foo.bar.baz"), "foo.bar.baz\n"); }

#[test]
fn function_call() { assert_eq!(fmt::format("f(1, 2)"), "f(1, 2)\n"); }

#[test]
fn return_expr() { assert_eq!(fmt::format("return 42"), "return 42\n"); }

#[test]
fn trailing_newline() { assert!(fmt::format("x").ends_with('\n')); }

#[test]
fn idempotent() {
    for source in [
        "x = 1", "when x do y end", "[ 1, 2, 3 ]", "{ a: 1 b: 2 }",
        "// comment\nx = 1", "return 42", "f(1, 2)", "foo.bar.baz",
        "for v in items do\n  v\nend", "[]", "{}",
    ] {
        let once = fmt::format(source);
        let twice = fmt::format(&once);
        assert_eq!(once, twice, "not idempotent for: {source}");
    }
}

#[test]
fn doesnt_split_lines() {
    // Single-line constructs should stay single-line
    assert_eq!(fmt::format("when x do y end"), "when x do y end\n");
    assert_eq!(fmt::format("for v in x do v end"), "for v in x do v end\n");
    assert_eq!(fmt::format("while x do y end"), "while x do y end\n");
}

#[test]
fn comprehension() { assert_eq!(fmt::format("[v * 2 for v in items]"), "[ v * 2 for v in items ]\n"); }

#[test]
fn unary() {
    assert_eq!(fmt::format("-x"), "-x\n");
    assert_eq!(fmt::format("delete x"), "delete x\n");
}

#[test]
fn range() { assert_eq!(fmt::format("1..10"), "1 .. 10\n"); }

#[test]
fn object_comprehension() { assert_eq!(fmt::format("{(k): v for k in items}"), "{ (k):v for k in items }\n"); }

#[test]
fn comment_in_block() {
    let out = fmt::format("when x do\n  /* comment */\n  y\nend");
    assert!(out.contains("/* comment */"), "block comment lost: {out}");
}

#[test]
fn semicolons_separate_expressions_with_one_space() {
    assert_eq!(fmt::format("x = 1;y = 2"), "x = 1; y = 2\n");
    assert_eq!(fmt::format("a ;  b ; c"), "a; b; c\n");
}

#[test]
fn semicolon_sequence_in_a_condition() {
    assert_eq!(fmt::format("when x;x + 1 do 42 end"), "when x; x + 1 do 42 end\n");
}

#[test]
fn spreads_are_written_tight() {
    assert_eq!(fmt::format("[1,... rest]"), "[ 1, ...rest ]\n");
    assert_eq!(fmt::format("{a: 1 ...  b}"), "{ a:1 ...b }\n");
}
