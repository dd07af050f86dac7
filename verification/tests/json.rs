use rex_core::json::{value_to_json, write_json, Encoded};

fn s(t: &str) -> Encoded {
    Encoded::Str(t.to_string())
}

fn compact(v: &Encoded) -> String {
    let mut out = String::new();
    write_json(v, &mut out, false, 0);
    out
}

#[test]
fn json_numbers_and_decimals() {
    assert_eq!(compact(&Encoded::Integer(-42)), "-42");
    assert_eq!(compact(&Encoded::Decimal { sig: 15, exp: -1 }), "1.5");
    assert_eq!(compact(&Encoded::Decimal { sig: -5, exp: -3 }), "-0.005");
    assert_eq!(compact(&Encoded::Decimal { sig: 12, exp: 2 }), "1200");
    assert_eq!(compact(&Encoded::Decimal { sig: 314, exp: -2 }), "3.14");
    assert_eq!(compact(&Encoded::Decimal { sig: 7, exp: -1 }), "0.7");
}

#[test]
fn json_strings_are_escaped() {
    assert_eq!(compact(&s("a\"b\\c\n\t\r\u{1}\u{7f}é")), "\"a\\\"b\\\\c\\n\\t\\r\\u0001\\u007fé\"");
}

#[test]
fn json_references() {
    assert_eq!(compact(&Encoded::Ref("t".to_string())), "true");
    assert_eq!(compact(&Encoded::Ref("f".to_string())), "false");
    for name in ["n", "no", "nan", "inf", "nif"] {
        assert_eq!(compact(&Encoded::Ref(name.to_string())), "null");
    }
    assert_eq!(compact(&Encoded::Ref("x".to_string())), "\"'x\"");
    assert_eq!(compact(&Encoded::Other("Opcode(\"add\")".to_string())), "\"<Opcode(\"add\")>\"");
}

#[test]
fn json_containers_compact_and_pretty() {
    let arr = Encoded::Array(vec![Encoded::Integer(1), Encoded::Integer(2)]);
    assert_eq!(compact(&arr), "[1,2]");
    assert_eq!(value_to_json(&arr, true), "[\n  1,\n  2\n]\n");
    let obj = Encoded::Object(vec![(s("a"), Encoded::Integer(1)), (s("b"), Encoded::Array(vec![]))]);
    assert_eq!(compact(&obj), "{\"a\":1,\"b\":[]}");
    assert_eq!(value_to_json(&obj, true), "{\n  \"a\": 1,\n  \"b\": []\n}\n");
    assert_eq!(value_to_json(&Encoded::Object(vec![]), false), "{}");
}
