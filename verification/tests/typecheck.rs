use rex_core::types::{PropertyResult, Type};

#[test]
fn assignable_identity() {
    assert!(Type::Int.is_assignable_to(&Type::Int));
    assert!(Type::Str.is_assignable_to(&Type::Str));
}

#[test]
fn assignable_int_to_number() {
    assert!(Type::Int.is_assignable_to(&Type::Num));
    assert!(!Type::Num.is_assignable_to(&Type::Int));
}

#[test]
fn assignable_literal_str_to_str() {
    assert!(Type::LiteralStr("GET".into()).is_assignable_to(&Type::Str));
    assert!(!Type::Str.is_assignable_to(&Type::LiteralStr("GET".into())));
}

#[test]
fn assignable_to_some() {
    assert!(Type::Int.is_assignable_to(&Type::SomeType));
    assert!(Type::Str.is_assignable_to(&Type::SomeType));
    assert!(!Type::NoneType.is_assignable_to(&Type::SomeType));
}

#[test]
fn assignable_to_unknown() {
    assert!(Type::Int.is_assignable_to(&Type::unknown()));
    assert!(Type::NoneType.is_assignable_to(&Type::unknown()));
    assert!(Type::SomeType.is_assignable_to(&Type::unknown()));
}

#[test]
fn assignable_never_to_anything() {
    assert!(Type::Never.is_assignable_to(&Type::Int));
    assert!(Type::Never.is_assignable_to(&Type::Str));
    assert!(Type::Never.is_assignable_to(&Type::NoneType));
}

#[test]
fn assignable_to_union() {
    let target = Type::Union(vec![Type::Str, Type::Int]);
    assert!(Type::Int.is_assignable_to(&target));
    assert!(Type::Str.is_assignable_to(&target));
    assert!(!Type::Bool.is_assignable_to(&target));
}

#[test]
fn assignable_transitive() {
    // integer → number → some
    assert!(Type::Int.is_assignable_to(&Type::SomeType));
    // LiteralStr → string → some
    assert!(Type::LiteralStr("x".into()).is_assignable_to(&Type::SomeType));
}

#[test]
fn assignable_object_structural() {
    let source = Type::Object {
        fields: vec![("a".into(), Type::Int), ("b".into(), Type::Str)],
        wildcard: None,
    };
    // Target with subset of fields
    let target = Type::Object {
        fields: vec![("a".into(), Type::Int)],
        wildcard: None,
    };
    assert!(source.is_assignable_to(&target));
}

#[test]
fn assignable_object_to_map() {
    let source = Type::Object {
        fields: vec![("a".into(), Type::Int), ("b".into(), Type::Int)],
        wildcard: None,
    };
    // Rigid object with all-integer fields is assignable to integer map
    let target = Type::Object {
        fields: vec![],
        wildcard: Some(Box::new(Type::Int)),
    };
    assert!(source.is_assignable_to(&target));

    // But not if field types don't match the wildcard
    let source2 = Type::Object {
        fields: vec![("a".into(), Type::Int), ("b".into(), Type::Str)],
        wildcard: None,
    };
    assert!(!source2.is_assignable_to(&target));
}

#[test]
fn resolve_known_field() {
    let obj = Type::Object {
        fields: vec![("name".into(), Type::Str), ("age".into(), Type::Int)],
        wildcard: None,
    };
    assert_eq!(obj.resolve_property("name"), PropertyResult::Known(Type::Str));
    assert_eq!(obj.resolve_property("age"), PropertyResult::Known(Type::Int));
}

#[test]
fn resolve_unknown_field() {
    let obj = Type::Object {
        fields: vec![("name".into(), Type::Str)],
        wildcard: None,
    };
    assert_eq!(obj.resolve_property("missing"), PropertyResult::Unknown);
}

#[test]
fn resolve_wildcard_field() {
    let map = Type::Object {
        fields: vec![],
        wildcard: Some(Box::new(Type::Str)),
    };
    match map.resolve_property("anything") {
        PropertyResult::Wildcard(ty) => {
            // Should be string | none
            assert!(ty.contains_none());
        }
        other => panic!("expected Wildcard, got {other:?}"),
    }
}

#[test]
fn resolve_known_field_over_wildcard() {
    let obj = Type::Object {
        fields: vec![("name".into(), Type::Str)],
        wildcard: Some(Box::new(Type::Int)),
    };
    // Known field returns exact type, not wildcard
    assert_eq!(obj.resolve_property("name"), PropertyResult::Known(Type::Str));
    // Unknown field falls through to wildcard
    match obj.resolve_property("other") {
        PropertyResult::Wildcard(ty) => assert!(ty.contains_none()),
        other => panic!("expected Wildcard, got {other:?}"),
    }
}

#[test]
fn resolve_on_none() {
    assert_eq!(Type::NoneType.resolve_property("x"), PropertyResult::Known(Type::NoneType));
}

#[test]
fn resolve_on_some() {
    let result = Type::SomeType.resolve_property("x");
    match result {
        PropertyResult::Known(ty) => {
            assert!(ty.contains_none());
        }
        other => panic!("expected Known(some | none), got {other:?}"),
    }
}

#[test]
fn resolve_on_union() {
    // {a: number} | {*: string}
    let union = Type::Union(vec![
        Type::Object {
            fields: vec![("a".into(), Type::Num)],
            wildcard: None,
        },
        Type::Object {
            fields: vec![],
            wildcard: Some(Box::new(Type::Str)),
        },
    ]);
    // .a resolves on both branches: number from left, string|none from right
    match union.resolve_property("a") {
        PropertyResult::Known(ty) | PropertyResult::UnknownInBranch(ty) => {
            // Combined type should include number and string
            let display = ty.display();
            assert!(display.contains("num") || display.contains("str"),
                "unexpected type: {display}");
        }
        other => panic!("expected Known or UnknownInBranch, got {other:?}"),
    }
}

#[test]
fn resolve_array_size() {
    let arr = Type::Array(Box::new(Type::Str));
    assert_eq!(arr.resolve_property("size"), PropertyResult::Known(Type::Int));
}

#[test]
fn simplify_nested_unions() {
    let ty = Type::Union(vec![
        Type::Union(vec![Type::Int, Type::Str]),
        Type::Bool,
    ]);
    let simplified = ty.simplify();
    match simplified {
        Type::Union(types) => {
            assert_eq!(types.len(), 3);
            assert!(types.contains(&Type::Int));
            assert!(types.contains(&Type::Str));
            assert!(types.contains(&Type::Bool));
        }
        _ => panic!("expected union, got {simplified:?}"),
    }
}

#[test]
fn simplify_dedup() {
    let ty = Type::Union(vec![Type::Int, Type::Str, Type::Int]);
    let simplified = ty.simplify();
    match simplified {
        Type::Union(types) => assert_eq!(types.len(), 2),
        _ => panic!("expected union, got {simplified:?}"),
    }
}

#[test]
fn simplify_single() {
    let ty = Type::Union(vec![Type::Int]);
    assert_eq!(ty.simplify(), Type::Int);
}

#[test]
fn simplify_some_absorbs() {
    // some | string | number → some (some absorbs concrete types)
    let ty = Type::Union(vec![Type::SomeType, Type::Str, Type::Num]);
    let simplified = ty.simplify();
    assert_eq!(simplified, Type::SomeType);
}

#[test]
fn simplify_some_keeps_none() {
    // some | none → some | none (unknown)
    let ty = Type::Union(vec![Type::SomeType, Type::NoneType]);
    let simplified = ty.simplify();
    assert_eq!(simplified, Type::unknown());
}

#[test]
fn remove_none_from_union() {
    let ty = Type::Union(vec![Type::Str, Type::NoneType]);
    assert_eq!(ty.remove_none(), Type::Str);
}

#[test]
fn remove_none_from_bare_none() {
    assert_eq!(Type::NoneType.remove_none(), Type::Never);
}

#[test]
fn add_none_to_type() {
    let ty = Type::Str;
    let with_none = ty.add_none();
    assert!(with_none.contains_none());
}

#[test]
fn add_none_idempotent() {
    let ty = Type::Union(vec![Type::Str, Type::NoneType]);
    let with_none = ty.add_none();
    assert_eq!(with_none, ty);
}

#[test]
fn intersection_is_string() {
    let ty = Type::Intersection(vec![Type::Str, Type::Array(Box::new(Type::Str))]);
    assert!(ty.is_string());
}

#[test]
fn intersection_assignable_to_member() {
    // string & [string] is assignable to string
    let ty = Type::Intersection(vec![Type::Str, Type::Array(Box::new(Type::Str))]);
    assert!(ty.is_assignable_to(&Type::Str));
    assert!(ty.is_assignable_to(&Type::Array(Box::new(Type::Str))));
}

#[test]
fn intersection_property_resolution() {
    // string & [string] — .size works (from both), .0 works (from both)
    let ty = Type::Intersection(vec![Type::Str, Type::Array(Box::new(Type::Str))]);
    match ty.resolve_property("size") {
        PropertyResult::Known(Type::Int) => {}
        other => panic!("expected Known(Int), got {other:?}"),
    }
}

#[test]
fn intersection_display() {
    let ty = Type::Intersection(vec![Type::Str, Type::Array(Box::new(Type::Str))]);
    assert_eq!(ty.display(), "str & [str]");
}

#[test]
fn simplify_twice_changes_nothing() {
    let ty = Type::Union(vec![
        Type::Union(vec![Type::Int, Type::Str]),
        Type::Int,
        Type::NoneType,
        Type::Union(vec![Type::Str]),
    ]);
    let once = ty.simplify();
    let twice = once.deep_clone().simplify();
    assert_eq!(once, twice);
    assert_eq!(once, Type::Union(vec![Type::Int, Type::Str, Type::NoneType]));
}
