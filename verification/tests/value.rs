use rex_core::value::Value;

#[test]
fn value_none_null_bool() {
    assert!(Value::none().is_none());
    assert!(!Value::none().is_defined());
    assert!(Value::null().is_null());
    assert!(Value::null().is_defined());
    assert_eq!(Value::true_value().as_bool(), Some(true));
    assert_eq!(Value::false_value().as_bool(), Some(false));
    assert_eq!(Value::bool(true), Value::true_value());
    assert_eq!(Value::bool(false), Value::false_value());
}

#[test]
fn value_int_roundtrip() {
    for n in [0i64, 1, -1, 42, -42, 1000000, -1000000, i32::MAX as i64, i32::MIN as i64] {
        let v = Value::integer(n);
        assert_eq!(v.as_i64(), Some(n), "failed for {n}");
    }
}

#[test]
fn value_int_large() {
    // i60 fits in 61-bit zigzag
    let big = (1i64 << 59) - 1;
    assert_eq!(Value::integer(big).as_i64(), Some(big));
    assert_eq!(Value::integer(-big).as_i64(), Some(-big));
}

#[test]
fn debug_text_names_the_kind_and_contents() {
    assert_eq!(Value::none().debug_text(), "None");
    assert_eq!(Value::null().debug_text(), "Null");
    assert_eq!(Value::bool(true).debug_text(), "Bool(true)");
    assert_eq!(Value::bool(false).debug_text(), "Bool(false)");
    assert_eq!(Value::integer(0).debug_text(), "Int(0)");
    assert_eq!(Value::integer(-42).debug_text(), "Int(-42)");
    assert_eq!(Value::integer(1234567).debug_text(), "Int(1234567)");
    assert_eq!(Value::string(7).debug_text(), "String(7)");
    assert_eq!(Value::array(10).debug_text(), "Array(10)");
    assert_eq!(Value::object(0).debug_text(), "Object(0)");
    assert_eq!(Value::host(3).debug_text(), "Host(3)");
    assert_eq!(Value::float(99).debug_text(), "Float(99)");
    assert_eq!(Value::embedded(4096).debug_text(), "Embedded(4096)");
}
