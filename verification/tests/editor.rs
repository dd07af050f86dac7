use rex_core::editor::{format_type, format_type_with_aliases, hex_digit, is_type_name, percent_decode};
use rex_core::types::Type;

fn person() -> Type {
    Type::Object {
        fields: vec![
            ("name".to_string(), Type::Str),
            ("color".to_string(), Type::Int),
        ],
        wildcard: None,
    }
}

#[test]
fn format_type_with_aliases_keeps_top_level_structural() {
    let person = person();
    let root = Type::Object {
        fields: vec![
            ("bob".to_string(), person.clone()),
            ("tim".to_string(), person.clone()),
        ],
        wildcard: None,
    };
    let aliases = vec![("Person".to_string(), person)];

    let got = format_type_with_aliases(&root, &aliases);
    assert_eq!(got, "{bob: Person, tim: Person}");
}

#[test]
fn format_type_with_aliases_uses_unique_nested_match_only() {
    let person = person();
    let aliases = vec![
        ("Person".to_string(), person.clone()),
        ("User".to_string(), person.clone()),
    ];

    let root = Type::Object {
        fields: vec![("bob".to_string(), person)],
        wildcard: None,
    };

    let got = format_type_with_aliases(&root, &aliases);
    assert_eq!(got, "{bob: {name: str, color: int}}");
}

#[test]
fn format_type_with_aliases_substitutes_in_nested_unions() {
    let person = person();
    let ty = Type::Union(vec![person.clone(), Type::NoneType]);
    let aliases = vec![("Person".to_string(), person)];

    let got = format_type_with_aliases(&ty, &aliases);
    assert_eq!(got, "Person | none");
}

#[test]
fn format_type_renders_every_shape() {
    let ty = Type::Object {
        fields: vec![
            ("tags".to_string(), Type::Array(Box::new(Type::Str))),
            ("kind".to_string(), Type::LiteralStr("GET".to_string())),
            ("both".to_string(), Type::Intersection(vec![Type::Str, Type::Ref("Id".to_string())])),
        ],
        wildcard: Some(Box::new(Type::Union(vec![Type::Num, Type::Null]))),
    };
    assert_eq!(
        format_type(&ty),
        "{tags: [str], kind: \"GET\", both: str & Id, *: num | null}"
    );
    assert_eq!(format_type(&Type::Object { fields: vec![], wildcard: None }), "{}");
    assert_eq!(format_type(&Type::SomeType), "some");
    assert_eq!(format_type(&Type::Never), "never");
}

#[test]
fn format_type_with_aliases_substitutes_in_arrays_not_at_top() {
    let person = person();
    let aliases = vec![("Person".to_string(), person.clone())];
    assert_eq!(format_type_with_aliases(&person, &aliases), "{name: str, color: int}");
    let arr = Type::Array(Box::new(person));
    assert_eq!(format_type_with_aliases(&arr, &aliases), "[Person]");
}

#[test]
fn percent_decoding() {
    assert_eq!(percent_decode("/home/me/my%20file.rex"), "/home/me/my file.rex");
    assert_eq!(percent_decode("%2Fa%2fb"), "/a/b");
    assert_eq!(percent_decode("100%"), "100%\0\0");
    assert_eq!(percent_decode("%zz!"), "%zz!");
    assert_eq!(percent_decode("%4"), "%4\0");
}

#[test]
fn hex_digits() {
    assert_eq!(hex_digit(b'0'), Some(0));
    assert_eq!(hex_digit(b'9'), Some(9));
    assert_eq!(hex_digit(b'a'), Some(10));
    assert_eq!(hex_digit(b'F'), Some(15));
    assert_eq!(hex_digit(b'g'), None);
}

#[test]
fn type_names() {
    for w in ["str", "int", "num", "bool", "some", "none", "null", "unknown", "never"] {
        assert!(is_type_name(w), "{w}");
    }
    assert!(!is_type_name("string"));
    assert!(!is_type_name(""));
}
