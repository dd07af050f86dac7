use rex_core::env::{DomainSchema, FunctionSig, GlobalEntry};
use rex_core::rexd::{extract_shortcodes, parse_rexd, Shortcode};
use rex_core::types::Type;

fn alias<'a>(s: &'a DomainSchema, k: &str) -> Option<&'a Type> {
    s.type_aliases.iter().find(|(n, _)| n == k).map(|(_, t)| t)
}

fn global<'a>(s: &'a DomainSchema, k: &str) -> Option<&'a GlobalEntry> {
    s.globals.iter().find(|(n, _)| n == k).map(|(_, g)| g)
}

fn function<'a>(s: &'a DomainSchema, k: &str) -> Option<&'a FunctionSig> {
    s.functions.iter().find(|(n, _)| n == k).map(|(_, f)| f)
}

#[test]
fn parse_type_alias_string() {
    let schema = parse_rexd("type Foo = str");
    assert_eq!(alias(&schema, "Foo"), Some(&Type::Str));
}

#[test]
fn parse_type_alias_union() {
    let schema = parse_rexd(r#"type Method = "GET" | "POST""#);
    let ty = alias(&schema, "Method").unwrap();
    assert_eq!(
        ty,
        &Type::Union(vec![Type::LiteralStr("GET".into()), Type::LiteralStr("POST".into())])
    );
}

#[test]
fn parse_type_alias_multi_union() {
    let schema = parse_rexd(r#"type M = "GET" | "POST" | "PUT""#);
    let ty = alias(&schema, "M").unwrap();
    match ty {
        Type::Union(types) => assert_eq!(types.len(), 3),
        _ => panic!("expected union, got {ty:?}"),
    }
}

#[test]
fn parse_type_alias_object() {
    let schema = parse_rexd("type Point = {x: int, y: int}");
    let ty = alias(&schema, "Point").unwrap();
    match ty {
        Type::Object { fields, wildcard } => {
            assert_eq!(fields.len(), 2);
            assert_eq!(fields[0], ("x".into(), Type::Int));
            assert_eq!(fields[1], ("y".into(), Type::Int));
            assert!(wildcard.is_none());
        }
        _ => panic!("expected object, got {ty:?}"),
    }
}

#[test]
fn parse_type_alias_map() {
    let schema = parse_rexd("type Headers = {*: str}");
    let ty = alias(&schema, "Headers").unwrap();
    match ty {
        Type::Object { fields, wildcard } => {
            assert!(fields.is_empty());
            assert_eq!(wildcard.as_deref(), Some(&Type::Str));
        }
        _ => panic!("expected map, got {ty:?}"),
    }
}

#[test]
fn parse_type_alias_array() {
    let schema = parse_rexd("type Names = [str]");
    let ty = alias(&schema, "Names").unwrap();
    assert_eq!(ty, &Type::Array(Box::new(Type::Str)));
}

#[test]
fn parse_type_alias_ref() {
    let schema = parse_rexd("type Req = {headers: Headers}");
    let ty = alias(&schema, "Req").unwrap();
    match ty {
        Type::Object { fields, .. } => {
            assert_eq!(fields[0], ("headers".into(), Type::Ref("Headers".into())));
        }
        _ => panic!("expected object, got {ty:?}"),
    }
}

#[test]
fn parse_extern_simple() {
    let schema = parse_rexd("extern config: unknown");
    let g = global(&schema, "config").unwrap();
    assert_eq!(g.ty, Type::unknown());
    assert!(!g.mutable);
}

#[test]
fn parse_extern_mut() {
    let schema = parse_rexd("extern mut status: int");
    let g = global(&schema, "status").unwrap();
    assert_eq!(g.ty, Type::Int);
    assert!(g.mutable);
}

#[test]
fn parse_extern_object() {
    let schema = parse_rexd("extern req: {method: str, path: str}");
    let g = global(&schema, "req").unwrap();
    match &g.ty {
        Type::Object { fields, .. } => {
            assert_eq!(fields.len(), 2);
            assert_eq!(fields[0].0, "method");
            assert_eq!(fields[1].0, "path");
        }
        _ => panic!("expected object, got {:?}", g.ty),
    }
}

#[test]
fn parse_extern_function_with_return() {
    let schema = parse_rexd("extern json.parse(text: str) -> some");
    let f = function(&schema, "json.parse").unwrap();
    assert_eq!(f.args.len(), 1);
    assert_eq!(f.args[0], ("text".into(), Type::Str));
    assert_eq!(f.returns, Type::SomeType);
}

#[test]
fn parse_extern_function_no_return() {
    let schema = parse_rexd("extern log.info(message: some)");
    let f = function(&schema, "log.info").unwrap();
    assert_eq!(f.args.len(), 1);
    assert_eq!(f.args[0], ("message".into(), Type::SomeType));
    assert_eq!(f.returns, Type::NoneType);
}

#[test]
fn parse_extern_function_multiple_args() {
    let schema = parse_rexd("extern db.set(key: str, value: str) -> bool");
    let f = function(&schema, "db.set").unwrap();
    assert_eq!(f.args.len(), 2);
    assert_eq!(f.args[0], ("key".into(), Type::Str));
    assert_eq!(f.args[1], ("value".into(), Type::Str));
    assert_eq!(f.returns, Type::Bool);
}

#[test]
fn parse_doc_comments() {
    let schema = parse_rexd("// Parse a JSON str\nextern json.parse(text: str) -> some");
    let f = function(&schema, "json.parse").unwrap();
    assert_eq!(f.doc.as_deref(), Some("Parse a JSON str"));
}

#[test]
fn parse_doc_comments_multiline() {
    let schema = parse_rexd("// Line one\n// Line two\nextern config: unknown");
    let g = global(&schema, "config").unwrap();
    assert_eq!(g.doc.as_deref(), Some("Line one\nLine two"));
}

#[test]
fn blank_line_resets_doc() {
    let schema = parse_rexd("// Not attached\n\nextern config: unknown");
    let g = global(&schema, "config").unwrap();
    assert!(g.doc.is_none());
}

#[test]
fn parse_intersection_type() {
    let schema = parse_rexd("type HeaderValue = str & [str]");
    let ty = alias(&schema, "HeaderValue").unwrap();
    match ty {
        Type::Intersection(types) => {
            assert_eq!(types.len(), 2);
            assert!(types.contains(&Type::Str));
            assert!(types.contains(&Type::Array(Box::new(Type::Str))));
        }
        _ => panic!("expected intersection, got {ty:?}"),
    }
}

#[test]
fn writable_fields_and_shortcodes() {
    let schema = parse_rexd("extern \"r\" res: {mut status: int, body: str, mut *: str}");
    let g = global(&schema, "res").unwrap();
    assert!(!g.mutable);
    assert_eq!(g.mutable_fields, vec!["status".to_string(), "*".to_string()]);
    match &g.ty {
        Type::Object { fields, wildcard } => {
            assert_eq!(fields[0], ("status".into(), Type::Int));
            assert_eq!(fields[1], ("body".into(), Type::Str));
            assert_eq!(wildcard.as_deref(), Some(&Type::Str));
        }
        _ => panic!("expected object, got {:?}", g.ty),
    }
}

#[test]
fn rest_parameters_and_redeclarations() {
    let schema = parse_rexd(
        "extern fmt.join(sep: str, ...parts: [str]) -> str\ntype A = int\ntype A = num",
    );
    let f = function(&schema, "fmt.join").unwrap();
    assert_eq!(f.args, vec![("sep".to_string(), Type::Str)]);
    assert_eq!(f.rest, Some(("parts".to_string(), Type::Array(Box::new(Type::Str)))));
    assert_eq!(schema.type_aliases, vec![("A".to_string(), Type::Num)]);
}

#[test]
fn nullable_and_grouped_types() {
    let schema = parse_rexd("type Maybe = (str | none) | null");
    let ty = alias(&schema, "Maybe").unwrap();
    assert_eq!(ty, &Type::Union(vec![Type::Str, Type::NoneType, Type::Null]));
}

#[test]
fn shortcodes_of_bindings_and_functions() {
    let map = extract_shortcodes(
        "extern \"r\" req: {method: str}\nextern \"jp\" json.parse(text: str) -> some\nextern 'h' html(s: str)\nextern mut status: int\nextern \"\" skip: int\nextern \"s\" mut st: int",
    );
    assert_eq!(
        map,
        vec![
            ("req".to_string(), Shortcode::Ref("r".to_string())),
            ("json.parse".to_string(), Shortcode::Opcode("jp".to_string())),
            ("html".to_string(), Shortcode::Opcode("h".to_string())),
            ("st".to_string(), Shortcode::Ref("s".to_string())),
        ]
    );
}

#[test]
fn a_later_shortcode_replaces_an_earlier_one() {
    let map = extract_shortcodes("extern \"a\" x: int\nextern \"b\" x: int");
    assert_eq!(map, vec![("x".to_string(), Shortcode::Ref("b".to_string()))]);
}

#[test]
fn domain_file_with_assignment_style_declarations() {
    let schema = parse_rexd(
        "extern method = string\nextern mut status = integer\nextern headers = {*: string}\n\nextern db.list(prefix: string) -> [{key: string, value: string}]\nextern json.parse(text: string) -> some\n",
    );
    let m = global(&schema, "method").unwrap();
    assert_eq!(m.ty, Type::Ref("string".into()));
    assert!(!m.mutable);
    assert!(global(&schema, "status").unwrap().mutable);
    match &global(&schema, "headers").unwrap().ty {
        Type::Object { fields, wildcard } => {
            assert!(fields.is_empty());
            assert_eq!(wildcard.as_deref(), Some(&Type::Ref("string".into())));
        }
        other => panic!("expected map, got {other:?}"),
    }
    let list = function(&schema, "db.list").unwrap();
    assert_eq!(list.args, vec![("prefix".to_string(), Type::Ref("string".into()))]);
    assert_eq!(
        list.returns,
        Type::Array(Box::new(Type::Object {
            fields: vec![
                ("key".to_string(), Type::Ref("string".into())),
                ("value".to_string(), Type::Ref("string".into())),
            ],
            wildcard: None,
        }))
    );
    assert_eq!(function(&schema, "json.parse").unwrap().returns, Type::SomeType);
}
