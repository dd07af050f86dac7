use rex_core::env::{DiagnosticKind, DomainSchema, FunctionSig, GlobalEntry, Narrowing, TypeEnv};
use rex_core::types::Type;

fn schema() -> DomainSchema {
    DomainSchema {
        type_aliases: vec![],
        globals: vec![
            (
                "res".to_string(),
                GlobalEntry {
                    ty: Type::Object {
                        fields: vec![("status".to_string(), Type::Int), ("body".to_string(), Type::Str)],
                        wildcard: None,
                    },
                    mutable: false,
                    mutable_fields: vec!["status".to_string()],
                    doc: None,
                },
            ),
            (
                "headers".to_string(),
                GlobalEntry {
                    ty: Type::Object { fields: vec![], wildcard: Some(Box::new(Type::Str)) },
                    mutable: false,
                    mutable_fields: vec!["*".to_string()],
                    doc: None,
                },
            ),
            (
                "status".to_string(),
                GlobalEntry { ty: Type::Int, mutable: true, mutable_fields: vec![], doc: None },
            ),
        ],
        functions: vec![],
    }
}

#[test]
fn globals_seed_the_outer_scope() {
    let s = schema();
    let env = TypeEnv::new(&s);
    assert_eq!(env.lookup_var("status"), Some(Type::Int));
    assert_eq!(env.lookup_var("nope"), None);
    assert!(env.has_domain());
    let empty = DomainSchema { type_aliases: vec![], globals: vec![], functions: vec![] };
    assert!(!TypeEnv::new(&empty).has_domain());
    let with_fn = DomainSchema {
        type_aliases: vec![],
        globals: vec![],
        functions: vec![(
            "f".to_string(),
            FunctionSig { args: vec![], rest: None, returns: Type::Int, doc: None },
        )],
    };
    assert!(TypeEnv::new(&with_fn).has_domain());
}

#[test]
fn scopes_shadow_and_restore() {
    let s = schema();
    let mut env = TypeEnv::new(&s);
    env.set_var("x", Type::Int);
    env.push_scope();
    assert_eq!(env.lookup_var("x"), Some(Type::Int));
    env.set_var("x", Type::Str);
    assert_eq!(env.lookup_var("x"), Some(Type::Str));
    env.set_var("x", Type::Bool);
    assert_eq!(env.lookup_var("x"), Some(Type::Bool));
    env.pop_scope();
    assert_eq!(env.lookup_var("x"), Some(Type::Int));
    env.pop_scope();
    assert_eq!(env.lookup_var("x"), None);
    env.pop_scope();
    env.set_var("y", Type::Int);
    assert_eq!(env.lookup_var("y"), None);
}

#[test]
fn write_to_mutable_field_is_allowed() {
    let s = schema();
    let mut env = TypeEnv::new(&s);
    env.check_mutability("res.status", 0, 10);
    assert!(env.diagnostics.is_empty());
    assert!(env.is_field_mutable("res", "status.code"));
    assert!(env.is_field_mutable("headers", "anything"));
    assert!(env.is_field_mutable("local", "x"));
}

#[test]
fn write_to_readonly_field_is_reported() {
    let s = schema();
    let mut env = TypeEnv::new(&s);
    env.check_mutability("res.body", 3, 11);
    assert_eq!(env.diagnostics.len(), 1);
    assert_eq!(env.diagnostics[0].kind, DiagnosticKind::Error);
    assert_eq!(env.diagnostics[0].message, "cannot assign to read-only property 'body' on 'res'");
    assert_eq!((env.diagnostics[0].span_start, env.diagnostics[0].span_end), (3, 11));
    assert!(!env.is_field_mutable("res", "body"));
}

#[test]
fn write_to_mutable_binding_is_allowed() {
    let s = schema();
    let mut env = TypeEnv::new(&s);
    env.check_mutability("status.x", 0, 8);
    env.check_mutability("status", 0, 6);
    env.check_mutability("unknown.field", 0, 6);
    assert!(env.diagnostics.is_empty());
}

#[test]
fn errors_and_warnings_are_recorded_in_order() {
    let s = schema();
    let mut env = TypeEnv::new(&s);
    env.error(1, 2, "bad".to_string());
    env.warning(3, 4, "meh".to_string());
    assert_eq!(env.diagnostics.len(), 2);
    assert_eq!(env.diagnostics[0].kind, DiagnosticKind::Error);
    assert_eq!(env.diagnostics[1].kind, DiagnosticKind::Warning);
    assert_eq!(env.diagnostics[1].message, "meh");
}

#[test]
fn narrowings_refine_the_innermost_scope() {
    let s = schema();
    let mut env = TypeEnv::new(&s);
    env.set_var("x", Type::Union(vec![Type::Str, Type::NoneType]));
    env.push_scope();
    env.apply_narrowings(&[
        Narrowing::Exists("x".to_string()),
        Narrowing::Equals("m".to_string(), Type::LiteralStr("GET".to_string())),
        Narrowing::Assigned("y".to_string(), Type::Union(vec![Type::Int, Type::NoneType])),
        Narrowing::Exists("missing".to_string()),
    ]);
    assert_eq!(env.lookup_var("x"), Some(Type::Str));
    assert_eq!(env.lookup_var("m"), Some(Type::LiteralStr("GET".to_string())));
    assert_eq!(env.lookup_var("y"), Some(Type::Int));
    assert_eq!(env.lookup_var("missing"), None);
    env.pop_scope();
    assert_eq!(env.lookup_var("x"), Some(Type::Union(vec![Type::Str, Type::NoneType])));
}

#[test]
fn inverse_narrowings_make_existence_none() {
    let s = schema();
    let mut env = TypeEnv::new(&s);
    env.set_var("x", Type::Str);
    env.apply_narrowings_inverse(&[
        Narrowing::Exists("x".to_string()),
        Narrowing::TypePredicate("z".to_string(), Type::Num),
        Narrowing::Assigned("y".to_string(), Type::Int),
    ]);
    assert_eq!(env.lookup_var("x"), Some(Type::NoneType));
    assert_eq!(env.lookup_var("y"), Some(Type::NoneType));
    assert_eq!(env.lookup_var("z"), None);
}

#[test]
fn unknown_type_references_are_reported() {
    let mut s = schema();
    s.type_aliases.push(("Known".to_string(), Type::Int));
    let mut env = TypeEnv::new(&s);
    env.inline_aliases.push(("Local".to_string(), Type::Str));
    let ty = Type::Object {
        fields: vec![
            ("a".to_string(), Type::Ref("Known".to_string())),
            ("b".to_string(), Type::Array(Box::new(Type::Ref("Nope".to_string())))),
        ],
        wildcard: Some(Box::new(Type::Union(vec![Type::Ref("Local".to_string()), Type::Ref("Other".to_string())]))),
    };
    env.validate_type(&ty, 5, 9);
    let messages: Vec<&str> = env.diagnostics.iter().map(|d| d.message.as_str()).collect();
    assert_eq!(messages, vec!["unknown type 'Nope'", "unknown type 'Other'"]);
    assert!(env.diagnostics.iter().all(|d| d.kind == DiagnosticKind::Error && d.span_start == 5 && d.span_end == 9));
}
