use rex_core::env::{DomainSchema, FunctionSig, GlobalEntry};
use rex_core::hover::{hover, hover_at, hover_rexd_param};
use rex_core::types::Type;

fn sig(args: Vec<(&str, Type)>, returns: Type, doc: Option<&str>) -> FunctionSig {
    FunctionSig {
        args: args.into_iter().map(|(n, t)| (n.to_string(), t)).collect(),
        rest: None,
        returns,
        doc: doc.map(|d| d.to_string()),
    }
}

fn schema() -> DomainSchema {
    DomainSchema {
        type_aliases: vec![(
            "Person".to_string(),
            Type::Object { fields: vec![("name".to_string(), Type::Str)], wildcard: None },
        )],
        globals: vec![(
            "req".to_string(),
            GlobalEntry {
                ty: Type::Object { fields: vec![("method".to_string(), Type::Str)], wildcard: None },
                mutable: false,
                mutable_fields: vec![],
                doc: Some("The request.".to_string()),
            },
        )],
        functions: vec![
            ("log.warn".to_string(), sig(vec![("msg", Type::Str)], Type::NoneType, None)),
            ("json.parse".to_string(), sig(vec![("text", Type::Str)], Type::SomeType, Some("Parses JSON."))),
            ("log.info".to_string(), sig(vec![("msg", Type::Str), ("n", Type::Int)], Type::NoneType, None)),
        ],
    }
}

#[test]
fn hover_on_a_global() {
    assert_eq!(
        hover(&schema(), "req", false),
        Some("```\nextern req: {method: str}\n```\n\n---\n\nThe request.".to_string())
    );
}

#[test]
fn hover_on_a_function() {
    assert_eq!(
        hover(&schema(), "json.parse", false),
        Some("```\nextern json.parse(text: str) -> some\n```\n\n---\n\nParses JSON.".to_string())
    );
}

#[test]
fn hover_on_a_type_alias() {
    assert_eq!(
        hover(&schema(), "Person", true),
        Some("```\ntype Person = {name: str}\n```".to_string())
    );
}

#[test]
fn hover_on_builtin_types_only_in_type_positions() {
    assert_eq!(
        hover(&schema(), "int", true),
        Some("```\ntype int\n```\n\n---\n\nBuilt-in integer type (whole numbers)".to_string())
    );
    assert_eq!(hover(&schema(), "int", false), None);
}

#[test]
fn hover_on_a_namespace_lists_sorted_members() {
    assert_eq!(
        hover(&schema(), "log", false),
        Some("```\nlog.info(msg: str, n: int) -> none\nlog.warn(msg: str) -> none\n```".to_string())
    );
    assert_eq!(hover(&schema(), "nothing", false), None);
}

#[test]
fn hover_on_parameters_of_a_declared_function() {
    let mut s = schema();
    s.functions.push((
        "db.set".to_string(),
        FunctionSig {
            args: vec![("key".to_string(), Type::Str), ("value".to_string(), Type::Int)],
            rest: Some(("more".to_string(), Type::Array(Box::new(Type::Str)))),
            returns: Type::Bool,
            doc: None,
        },
    ));
    let src = "// decls\n  extern mut db.set(key: str, value: int, ...more: [str]) -> bool\n";
    assert_eq!(
        hover_rexd_param(&s, src, 1, "value"),
        Some("```rex\nvalue: int\n```\n\n---\n\nParameter of `db.set`".to_string())
    );
    assert_eq!(
        hover_rexd_param(&s, src, 1, "more"),
        Some("```rex\nmore: [str]\n```\n\n---\n\nRest parameter of `db.set`".to_string())
    );
    assert_eq!(hover_rexd_param(&s, src, 1, "other"), None);
    assert_eq!(hover_rexd_param(&s, src, 0, "key"), None);
    assert_eq!(hover_rexd_param(&s, src, 5, "key"), None);
}

#[test]
fn builtin_method_hover_signatures() {
    assert_eq!(rex_core::hover::builtin_method_hover("trim"), Some("str.trim() -> str"));
    assert_eq!(
        rex_core::hover::builtin_method_hover("starts-with"),
        Some("str.starts-with(prefix: str) -> str | none")
    );
    assert_eq!(rex_core::hover::builtin_method_hover("frobnicate"), None);
}

fn at(source: &str, line: u32, character: u32, inline: &Vec<(String, FunctionSig)>, spans: &Vec<(usize, usize, Type)>) -> Option<String> {
    hover_at(&schema(), source, line, character, false, inline, spans, &vec![])
}

#[test]
fn hover_at_a_global_and_a_dotted_function() {
    let none = vec![];
    assert_eq!(
        at("x = req", 0, 5, &none, &vec![]),
        Some("```\nextern req: {method: str}\n```\n\n---\n\nThe request.".to_string())
    );
    assert_eq!(
        at("v = json.parse(t)", 0, 10, &none, &vec![]),
        Some("```\nextern json.parse(text: str) -> some\n```\n\n---\n\nParses JSON.".to_string())
    );
}

#[test]
fn hover_at_builtin_types_only_inside_types() {
    let none = vec![];
    let typed = at("x: int = 1", 0, 4, &none, &vec![]);
    assert!(typed.is_some());
    assert_eq!(typed, hover(&schema(), "int", true));
    assert_eq!(at("int = 1", 0, 1, &none, &vec![]), None);
}

#[test]
fn hover_at_a_method_after_a_dot() {
    assert_eq!(
        at("s.trim()", 0, 3, &vec![], &vec![]),
        Some("```rex\nstr.trim() -> str\n```".to_string())
    );
    assert_eq!(at("trim", 0, 1, &vec![], &vec![]), None);
}

#[test]
fn hover_at_a_function_of_the_document() {
    let inline = vec![("add".to_string(), sig(vec![("a", Type::Int)], Type::Int, None))];
    assert_eq!(
        at("add(1)", 0, 1, &inline, &vec![]),
        Some("```rex\nextern add(a: int) -> int\n```".to_string())
    );
}

#[test]
fn hover_at_an_inferred_type_prefers_the_exact_span() {
    let source = "x = 42\nx + 1";
    let spans = vec![(7, 12, Type::Num), (4, 6, Type::Int), (7, 8, Type::Int)];
    assert_eq!(at(source, 1, 0, &vec![], &spans), Some("```rex\nx: int\n```".to_string()));
    let around = vec![(0, 12, Type::Str), (7, 12, Type::Num)];
    assert_eq!(at(source, 1, 0, &vec![], &around), Some("```rex\nx + 1: num\n```".to_string()));
    assert_eq!(at(source, 1, 0, &vec![], &vec![]), None);
}
