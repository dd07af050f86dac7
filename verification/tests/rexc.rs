use rex_core::rexc::{
    b64_val, encode_varint_ascii, encoded_string_span_at, is_b64, kind_from_tag, parse_uint,
    parse_varint, read_fixed_b64, skip_value_from, varint_width, zigzag_decode, REX_KIND_ARRAY,
    REX_KIND_COMPOUND, REX_KIND_INT, REX_KIND_STRING,
};

#[test]
fn b64_digits() {
    assert_eq!(b64_val(b'0'), Some(0));
    assert_eq!(b64_val(b'z'), Some(35));
    assert_eq!(b64_val(b'A'), Some(36));
    assert_eq!(b64_val(b'-'), Some(62));
    assert_eq!(b64_val(b'_'), Some(63));
    assert_eq!(b64_val(b'+'), None);
    assert!(is_b64(b'Q'));
    assert!(!is_b64(b','));
}

#[test]
fn numerals_and_zigzag() {
    assert_eq!(parse_uint(b"10"), 64);
    assert_eq!(parse_uint(b"1_"), 127);
    assert_eq!(parse_uint(b""), 0);
    assert_eq!(zigzag_decode(0), 0);
    assert_eq!(zigzag_decode(1), -1);
    assert_eq!(zigzag_decode(2), 1);
    assert_eq!(zigzag_decode(85), -43);
}

#[test]
fn varints_roundtrip() {
    let mut out = Vec::new();
    encode_varint_ascii(4095, &mut out);
    assert_eq!(out, b"__".to_vec());
    assert_eq!(varint_width(4095), 2);
    assert_eq!(varint_width(0), 0);
    assert_eq!(varint_width(64), 2);
    let mut pos = 0;
    assert_eq!(parse_varint(&out, &mut pos), (4095, 2));
    assert_eq!(pos, 2);
    let input = b"1a+";
    let mut pos = 0;
    assert_eq!(parse_varint(input, &mut pos), (74, 2));
    assert_eq!(read_fixed_b64(b"x1a", 1, 2), Some(74));
    assert_eq!(read_fixed_b64(b"x1,", 1, 2), None);
    assert_eq!(read_fixed_b64(b"x1", 1, 2), None);
}

#[test]
fn string_spans() {
    assert_eq!(encoded_string_span_at(b"3,abc", 0), Some((0, 5)));
    assert_eq!(encoded_string_span_at(b"3,ab", 0), None);
    assert_eq!(encoded_string_span_at(b"3+", 0), None);
    assert_eq!(encoded_string_span_at(b"", 0), None);
}

#[test]
fn tag_kinds() {
    assert_eq!(kind_from_tag(b'+'), REX_KIND_INT);
    assert_eq!(kind_from_tag(b','), REX_KIND_STRING);
    assert_eq!(kind_from_tag(b'['), REX_KIND_ARRAY);
    assert_eq!(kind_from_tag(b'?'), REX_KIND_COMPOUND);
    assert_eq!(kind_from_tag(b'Z'), 0);
}

#[test]
fn skipping_values() {
    // Scalars end after their tag.
    assert_eq!(skip_value_from(b"2+", 0), Ok(2));
    assert_eq!(skip_value_from(b"x$", 0), Ok(2));
    // Strings skip their bytes.
    assert_eq!(skip_value_from(b"3,abcd", 0), Ok(5));
    assert_eq!(skip_value_from(b"9,ab", 0), Err("string length out of bounds"));
    // Decimals wrap the significand.
    assert_eq!(skip_value_from(b"2*4+", 0), Ok(4));
    // Unsized containers skip items up to the closer.
    assert_eq!(skip_value_from(b"[2+4+]", 0), Ok(6));
    assert_eq!(skip_value_from(b"[2+4+", 0), Err("missing container closer"));
    // Sized containers jump to the closer.
    assert_eq!(skip_value_from(b"4[2+4+]", 0), Ok(7));
    assert_eq!(skip_value_from(b"3[2+4+]", 0), Err("sized container closer mismatch"));
    // Indexed arrays skip their pointer table.
    assert_eq!(skip_value_from(b"[9#ab2+4+]", 0), Ok(10));
    // Compounds need an opener.
    assert_eq!(skip_value_from(b"?(2+)", 0), Ok(5));
    assert_eq!(skip_value_from(b"?x", 0), Err("invalid compound opener"));
    assert_eq!(skip_value_from(b"?", 0), Err("compound missing opener"));
    // Assignments skip two values.
    assert_eq!(skip_value_from(b"=x$2+", 0), Ok(5));
    assert_eq!(skip_value_from(b"2@", 0), Err("unknown tag"));
    assert_eq!(skip_value_from(b"22", 0), Err("unexpected end of input after varint"));
    assert_eq!(skip_value_from(b"2+", 2), Err("unexpected end of input"));
}
