use rex_core::completion::{completions, CompletionItem, CompletionKind};
use rex_core::env::{DomainSchema, FunctionSig, GlobalEntry};
use rex_core::types::Type;

fn sig(args: Vec<(&str, Type)>, returns: Type, doc: Option<&str>) -> FunctionSig {
    FunctionSig {
        args: args.into_iter().map(|(n, t)| (n.to_string(), t)).collect(),
        rest: None,
        returns,
        doc: doc.map(|d| d.to_string()),
    }
}

fn schema() -> DomainSchema {
    DomainSchema {
        type_aliases: vec![(
            "Person".to_string(),
            Type::Object { fields: vec![("name".to_string(), Type::Str)], wildcard: None },
        )],
        globals: vec![
            (
                "req".to_string(),
                GlobalEntry {
                    ty: Type::Object {
                        fields: vec![("method".to_string(), Type::Str), ("port".to_string(), Type::Int)],
                        wildcard: None,
                    },
                    mutable: false,
                    mutable_fields: vec![],
                    doc: Some("The request.".to_string()),
                },
            ),
            (
                "json".to_string(),
                GlobalEntry { ty: Type::Int, mutable: false, mutable_fields: vec![], doc: None },
            ),
        ],
        functions: vec![
            ("log.warn".to_string(), sig(vec![("msg", Type::Str)], Type::NoneType, None)),
            ("json.parse".to_string(), sig(vec![("text", Type::Str)], Type::SomeType, Some("Parses JSON."))),
            ("log.info".to_string(), sig(vec![("msg", Type::Str), ("n", Type::Int)], Type::NoneType, None)),
            ("req.header".to_string(), sig(vec![], Type::Str, None)),
        ],
    }
}

fn summary(items: &[CompletionItem]) -> Vec<(String, String, CompletionKind)> {
    items.iter().map(|c| (c.label.clone(), c.detail.clone(), c.kind)).collect()
}

#[test]
fn completes_the_methods_of_a_namespace() {
    let items = completions(&schema(), "log.");
    assert_eq!(
        summary(&items),
        vec![
            ("warn".to_string(), "(msg: str) -> none".to_string(), CompletionKind::Function),
            ("info".to_string(), "(msg: str, n: int) -> none".to_string(), CompletionKind::Function),
        ]
    );
}

#[test]
fn completes_methods_and_properties_of_a_global_object() {
    let items = completions(&schema(), "req.me");
    assert_eq!(
        summary(&items),
        vec![
            ("header".to_string(), "() -> str".to_string(), CompletionKind::Function),
            ("method".to_string(), "str".to_string(), CompletionKind::Property),
            ("port".to_string(), "int".to_string(), CompletionKind::Property),
        ]
    );
}

#[test]
fn function_documentation_is_carried() {
    let items = completions(&schema(), "json.");
    assert_eq!(items.len(), 1);
    assert_eq!(items[0].label, "parse");
    assert_eq!(items[0].documentation, Some("Parses JSON.".to_string()));
}

#[test]
fn top_level_lists_globals_namespaces_aliases_and_keywords() {
    let items = completions(&schema(), "re");
    let s = summary(&items);
    assert_eq!(s[0], ("req".to_string(), "{method: str, port: int}".to_string(), CompletionKind::Variable));
    assert_eq!(items[0].documentation, Some("The request.".to_string()));
    assert_eq!(s[1], ("json".to_string(), "int".to_string(), CompletionKind::Variable));
    // `json` and `req` are globals, so only `log` is offered as a namespace, once.
    assert_eq!(s[2], ("log".to_string(), "namespace".to_string(), CompletionKind::Module));
    assert_eq!(s[3], ("Person".to_string(), "{name: str}".to_string(), CompletionKind::Class));
    assert_eq!(s[4], ("when".to_string(), "keyword".to_string(), CompletionKind::Keyword));
    assert_eq!(s.last().unwrap().0, "mut");
    assert_eq!(items.len(), 4 + 22);
}

#[test]
fn an_unknown_namespace_has_no_candidates() {
    assert!(completions(&schema(), "nothing.").is_empty());
}

#[test]
fn the_namespace_is_everything_before_the_last_dot() {
    let mut s = schema();
    s.functions.push(("net.http.get".to_string(), sig(vec![], Type::Str, None)));
    let items = completions(&s, "net.http.g");
    assert_eq!(summary(&items), vec![("get".to_string(), "() -> str".to_string(), CompletionKind::Function)]);
    assert!(completions(&s, "x + log.").is_empty());
}
