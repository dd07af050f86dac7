use rex_core::reader::{RexCursor, REX_EOF, REX_ERR, REX_OK, REX_TYPE};

fn cursor(s: &str) -> RexCursor {
    RexCursor::new(s.as_bytes().to_vec())
}

#[test]
fn reader_scalars() {
    let mut c = cursor("1k+");
    assert_eq!(c.peek_kind(), 1);
    assert_eq!(c.read_int(), Ok(42));
    assert_eq!(c.pos(), 3);
    assert_eq!(c.at_end(), 1);
    assert_eq!(c.read_int(), Err(REX_EOF));
    assert_eq!(c.last_error(), "eof");

    let mut c = cursor("3+");
    assert_eq!(c.read_int(), Ok(-2));

    let mut c = cursor("5,hello");
    assert_eq!(c.peek_kind(), 3);
    assert_eq!(c.read_string(), Ok((2, 5)));
    assert_eq!(c.pos(), 7);

    let mut c = cursor("t'");
    assert_eq!(c.read_variable(), Err(REX_TYPE));
    assert_eq!(c.last_error(), "expected variable value");
    assert_eq!(c.pos(), 0);
    assert_eq!(c.read_ref(), Ok((0, 1)));
    assert_eq!(c.pos(), 2);

    let mut c = cursor("9,abc");
    assert_eq!(c.read_string(), Err(REX_ERR));
    assert_eq!(c.last_error(), "string out of bounds");
}

#[test]
fn reader_containers() {
    let mut c = cursor("(ad%2+4+)");
    assert_eq!(c.peek_kind(), 11);
    assert_eq!(c.open_call(), REX_OK);
    assert_eq!(c.read_opcode(), Ok((1, 2)));
    assert_eq!(c.read_int(), Ok(1));
    assert_eq!(c.at_end(), 0);
    assert_eq!(c.read_int(), Ok(2));
    assert_eq!(c.at_end(), 1);
    assert_eq!(c.close(), REX_OK);
    assert_eq!(c.pos(), 9);
    assert_eq!(c.close(), REX_ERR);
    assert_eq!(c.last_error(), "no open container frame");

    // Closing skips whatever is left of the container.
    let mut c = cursor("[2+4+6+]x$");
    assert_eq!(c.open_array(), Ok((false, 0)));
    assert_eq!(c.frame_indexed(), 0);
    assert_eq!(c.read_int(), Ok(1));
    assert_eq!(c.close(), REX_OK);
    assert_eq!(c.read_variable(), Ok((8, 1)));

    // A sized container ends where its size says.
    let mut c = cursor("6[2+4+6+]");
    assert_eq!(c.open_array(), Ok((false, 0)));
    assert_eq!(c.at_end(), 0);
    assert_eq!(c.close(), REX_OK);
    assert_eq!(c.pos(), 9);

    let mut c = cursor("[2+4+6+]");
    assert_eq!(c.open_object(), Err(REX_TYPE));
    assert_eq!(c.last_error(), "unexpected value kind for container open");
    assert_eq!(c.skip_value(), REX_OK);
    assert_eq!(c.pos(), 8);
    assert_eq!(c.reset(), REX_OK);
    assert_eq!(c.pos(), 0);
    assert_eq!(c.last_error(), "ok");
}

#[test]
fn reader_indexed_array_and_object() {
    let mut c = cursor("[g#022+4+]");
    assert_eq!(c.open_array(), Ok((true, 2)));
    assert_eq!(c.frame_indexed(), 1);
    assert_eq!(c.frame_count(), 2);
    assert_eq!(c.array_seek_index(1), REX_OK);
    assert_eq!(c.read_int(), Ok(2));
    assert_eq!(c.array_seek_index(0), REX_OK);
    assert_eq!(c.read_int(), Ok(1));
    assert_eq!(c.array_seek_index(2), REX_EOF);
    assert_eq!(c.last_error(), "array index out of bounds");
    assert_eq!(c.object_seek_key(&b"a".to_vec()), REX_TYPE);

    let mut c = cursor("{g#051,a2+1,b4+}");
    assert_eq!(c.open_object(), Ok((true, 2)));
    assert_eq!(c.object_seek_key(&b"b".to_vec()), REX_OK);
    assert_eq!(c.pos(), 13);
    assert_eq!(c.read_int(), Ok(2));
    assert_eq!(c.object_seek_key(&b"a".to_vec()), REX_OK);
    assert_eq!(c.read_int(), Ok(1));
    assert_eq!(c.object_seek_key(&b"c".to_vec()), REX_EOF);
    assert_eq!(c.last_error(), "object key not found");
    assert_eq!(c.array_seek_index(0), REX_TYPE);
    assert_eq!(c.close(), REX_OK);
    assert_eq!(c.pos(), 16);
}

#[test]
fn reader_indexed_table_out_of_bounds() {
    let mut c = cursor("[_#0]");
    assert_eq!(c.open_array(), Err(REX_ERR));
    assert_eq!(c.last_error(), "indexed table out of bounds");
    assert_eq!(c.pos(), 0);
}

#[test]
fn reader_open_then_close_is_skip() {
    for src in ["[2+4+6+]", "6[2+4+6+]", "[g#022+4+]", "{g#051,a2+1,b4+}", "(ad%2+4+)"] {
        let mut a = cursor(src);
        assert_eq!(a.skip_value(), REX_OK);
        let mut b = cursor(src);
        let opened = match src.as_bytes()[0] {
            b'[' | b'6' => b.open_array().is_ok(),
            b'{' => b.open_object().is_ok(),
            _ => b.open_call() == REX_OK,
        };
        assert!(opened);
        assert_eq!(b.close(), REX_OK);
        assert_eq!(a.pos(), b.pos());
        assert_eq!(b.frame_count(), 0);
        assert_eq!(b.last_error(), "ok");
    }
}
