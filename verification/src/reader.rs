//! A cursor over REXC bytecode: it peeks at the kind of the value under it,
//! reads scalars, opens and closes containers, and seeks into indexed arrays
//! and objects through their pointer tables.

use vstd::prelude::*;
use crate::rexc::{
    b64_digit, b64_number, cap_u64, cap_usize, closer_of, digit_run, encode_b64, encode_varint_ascii,
    encoded_string_span_at, kind_from_tag, kind_of_tag, lemma_digit_run_bound, numeral_at,
    parse_varint, read_fixed_b64, sat_add, sat_mul, sat_mul_usize, skip_v, skip_value_from, string_span,
    zigzag_decode, all_digits, skip_items,
};
use crate::text::str_to_string;

verus! {

/// The status of a cursor operation that succeeded.
pub const REX_OK: i32 = 0;
/// The status of an operation on malformed input or a cursor state that does
/// not allow it.
pub const REX_ERR: i32 = 1;
/// The status of an operation that found no value (end of input, index out
/// of bounds, key not found).
pub const REX_EOF: i32 = 2;
/// The status of an operation that found a value of another kind.
pub const REX_TYPE: i32 = 3;

/// An open container: its closing byte, where its body ends when its size
/// was given, and its pointer table when it is indexed (`count` entries of
/// `width` digits from `table_start`, offsets from `body_start`).
#[derive(Clone, Copy)]
pub struct Frame {
    pub closer: u8,
    pub body_end: Option<usize>,
    pub indexed: bool,
    pub count: usize,
    pub width: usize,
    pub table_start: usize,
    pub body_start: usize,
    pub container_tag: u8,
}

/// The model of a cursor: the bytes, the position, the open containers
/// (innermost last) and the message of the last error.
pub struct CursorV {
    pub data: Seq<u8>,
    pub pos: int,
    pub stack: Seq<Frame>,
    pub last_error: Seq<char>,
}

/// A cursor over REXC bytecode.
pub struct RexCursor {
    data: Vec<u8>,
    pos: usize,
    stack: Vec<Frame>,
    last_error: String,
}

impl View for RexCursor {
    type V = CursorV;

    closed spec fn view(&self) -> CursorV {
        CursorV { data: self.data@, pos: self.pos as int, stack: self.stack@, last_error: self.last_error@ }
    }
}

/// `c` with the error message `m`.
pub open spec fn with_error(c: CursorV, m: Seq<char>) -> CursorV {
    CursorV { data: c.data, pos: c.pos, stack: c.stack, last_error: m }
}

/// `c` at position `p`.
pub open spec fn at(c: CursorV, p: int) -> CursorV {
    CursorV { data: c.data, pos: p, stack: c.stack, last_error: c.last_error }
}

/// The header of the value at `pos` of `s`: its numeral's value and digit
/// count, its tag, and where its body starts; or why there is none.
pub open spec fn header(s: Seq<u8>, pos: int) -> Result<(int, int, u8, int), Seq<char>> {
    if pos < 0 || pos >= s.len() {
        Result::Err("eof"@)
    } else {
        let (d, v) = numeral_at(s, pos);
        let p = pos + d;
        if p >= s.len() {
            Result::Err("unexpected end of input after varint"@)
        } else {
            Result::Ok((v, d, s[p], p + 1))
        }
    }
}

/// The value of the `width` digits at `start`, when they all are digits
/// inside `s`.
pub open spec fn fixed_v(s: Seq<u8>, start: int, width: int) -> Option<int> {
    if start + width > s.len() || !all_digits(s.subrange(start, start + width)) {
        Option::None
    } else {
        Option::Some(cap_usize(b64_number(s.subrange(start, start + width))))
    }
}

impl RexCursor {
    /// A cursor at the start of `data`, with no open container and the
    /// message `ok`.
    pub fn new(data: Vec<u8>) -> (r: RexCursor)
        ensures
            r@ == (CursorV { data: data@, pos: 0, stack: Seq::empty(), last_error: "ok"@ }),
    {
        RexCursor { data, pos: 0, stack: Vec::new(), last_error: str_to_string("ok") }
    }

    fn set_error(&mut self, msg: &str)
        ensures
            final(self)@ == with_error(old(self)@, msg@),
    {
        self.last_error = str_to_string(msg);
    }

    /// Moves back to the start, closes every container and clears the
    /// error.
    pub fn reset(&mut self) -> (r: i32)
        ensures
            r == REX_OK,
            final(self)@ == (CursorV { data: old(self)@.data, pos: 0, stack: Seq::empty(), last_error: "ok"@ }),
    {
        self.pos = 0;
        self.stack.clear();
        self.set_error("ok");
        REX_OK
    }

    /// The position.
    pub fn pos(&self) -> (r: usize)
        ensures
            r == self@.pos,
    {
        self.pos
    }

    /// The number of bytes.
    pub fn len(&self) -> (r: usize)
        ensures
            r == self@.data.len(),
    {
        self.data.len()
    }

    /// Whether the innermost open container is indexed: 1 or 0 (0 with
    /// none open).
    pub fn frame_indexed(&self) -> (r: i32)
        ensures
            r == if self@.stack.len() > 0 && self@.stack.last().indexed {
                1i32
            } else {
                0i32
            },
    {
        if self.stack.len() == 0 {
            return 0;
        }
        if self.stack[self.stack.len() - 1].indexed {
            1
        } else {
            0
        }
    }

    /// The number of entries of the innermost open container's pointer
    /// table (0 with none open).
    pub fn frame_count(&self) -> (r: usize)
        ensures
            r == if self@.stack.len() > 0 {
                self@.stack.last().count
            } else {
                0usize
            },
    {
        if self.stack.len() == 0 {
            return 0;
        }
        self.stack[self.stack.len() - 1].count
    }

    /// The message of the last error (`ok` when there was none).
    pub fn last_error(&self) -> (r: &str)
        ensures
            r@ == self@.last_error,
    {
        self.last_error.as_str()
    }

    /// The header of the value at the position (see `header`).
    fn parse_header_at_pos(&self) -> (r: Result<(u64, usize, u8, usize), &'static str>)
        ensures
            match r {
                Result::Ok((v, d, tag, b)) => header(self@.data, self@.pos) == Result::<
                    (int, int, u8, int),
                    Seq<char>,
                >::Ok((v as int, d as int, tag, b as int)) && b <= self@.data.len(),
                Result::Err(m) => header(self@.data, self@.pos) == Result::<
                    (int, int, u8, int),
                    Seq<char>,
                >::Err(m@),
            },
    {
        if self.pos >= self.data.len() {
            return Result::Err("eof");
        }
        let mut p = self.pos;
        let (v, digits_len) = parse_varint(self.data.as_slice(), &mut p);
        if p >= self.data.len() {
            return Result::Err("unexpected end of input after varint");
        }
        let tag = self.data[p];
        Result::Ok((v, digits_len, tag, p + 1))
    }

    /// The kind of the value at the position (see `kind_of_tag`), or 0 with
    /// the error when there is none.
    pub fn peek_kind(&mut self) -> (r: i32)
        ensures
            match header(old(self)@.data, old(self)@.pos) {
                Result::Ok((_, _, tag, _)) => r == kind_of_tag(tag) && final(self)@ == old(self)@,
                Result::Err(m) => r == 0 && final(self)@ == with_error(old(self)@, m),
            },
    {
        match self.parse_header_at_pos() {
            Result::Ok((_, _, tag, _)) => kind_from_tag(tag),
            Result::Err(e) => {
                self.set_error(e);
                0
            },
        }
    }

    /// Moves past the value at the position (see `skip_v`).
    pub fn skip_value(&mut self) -> (r: i32)
        ensures
            match skip_v(old(self)@.data, old(self)@.pos) {
                Result::Ok(e) => r == REX_OK && final(self)@ == at(old(self)@, e),
                Result::Err(m) => r == REX_ERR && final(self)@ == with_error(old(self)@, m),
            },
    {
        match skip_value_from(self.data.as_slice(), self.pos) {
            Result::Ok(new_pos) => {
                self.pos = new_pos;
                REX_OK
            },
            Result::Err(e) => {
                self.set_error(e);
                REX_ERR
            },
        }
    }

    /// Reads the integer at the position (zigzag-encoded) and moves past it.
    pub fn read_int(&mut self) -> (r: Result<i64, i32>)
        ensures
            match header(old(self)@.data, old(self)@.pos) {
                Result::Ok((v, _, tag, b)) => if tag != 43 {
                    r == Result::<i64, i32>::Err(REX_TYPE) && final(self)@ == with_error(
                        old(self)@,
                        "expected integer value"@,
                    )
                } else {
                    &&& r matches Result::Ok(n)
                    &&& n == if v % 2 == 0 { v / 2 } else { -(v / 2) - 1 }
                    &&& final(self)@ == at(old(self)@, b)
                },
                Result::Err(m) => r == Result::<i64, i32>::Err(REX_EOF) && final(self)@ == with_error(
                    old(self)@,
                    m,
                ),
            },
    {
        let (v, _, tag, body_start) = match self.parse_header_at_pos() {
            Result::Ok(h) => h,
            Result::Err(e) => {
                self.set_error(e);
                return Result::Err(REX_EOF);
            },
        };
        if tag != 43u8 {
            self.set_error("expected integer value");
            return Result::Err(REX_TYPE);
        }
        let n = zigzag_decode(v);
        self.pos = body_start;
        Result::Ok(n)
    }

    /// Reads the string at the position: where its bytes start and how many
    /// there are; moves past it.
    pub fn read_string(&mut self) -> (r: Result<(usize, usize), i32>)
        ensures
            match header(old(self)@.data, old(self)@.pos) {
                Result::Ok((v, _, tag, b)) => {
                    let n = (v as u64) as usize as int;
                    if tag != 44 {
                        r == Result::<(usize, usize), i32>::Err(REX_TYPE) && final(self)@ == with_error(
                            old(self)@,
                            "expected string value"@,
                        )
                    } else if sat_add(b, n) > old(self)@.data.len() {
                        r == Result::<(usize, usize), i32>::Err(REX_ERR) && final(self)@ == with_error(
                            old(self)@,
                            "string out of bounds"@,
                        )
                    } else {
                        r == Result::<(usize, usize), i32>::Ok((b as usize, n as usize))
                            && final(self)@ == at(old(self)@, sat_add(b, n))
                    }
                },
                Result::Err(m) => r == Result::<(usize, usize), i32>::Err(REX_EOF) && final(self)@
                    == with_error(old(self)@, m),
            },
    {
        let (len, _, tag, body_start) = match self.parse_header_at_pos() {
            Result::Ok(h) => h,
            Result::Err(e) => {
                self.set_error(e);
                return Result::Err(REX_EOF);
            },
        };
        if tag != 44u8 {
            self.set_error("expected string value");
            return Result::Err(REX_TYPE);
        }
        let n = len as usize;
        let end = body_start.saturating_add(n);
        if end > self.data.len() {
            self.set_error("string out of bounds");
            return Result::Err(REX_ERR);
        }
        self.pos = end;
        Result::Ok((body_start, n))
    }

    /// Reads the name of the value at the position when its tag is
    /// `expected_tag`: where the name starts and how many bytes it has;
    /// moves past it.
    fn read_name_like(&mut self, expected_tag: u8, what: &str) -> (r: Result<(usize, usize), i32>)
        ensures
            r == name_read(old(self)@, expected_tag, what@).0,
            final(self)@ == name_read(old(self)@, expected_tag, what@).1,
    {
        let start = self.pos;
        let (_, _, tag, body_start) = match self.parse_header_at_pos() {
            Result::Ok(h) => h,
            Result::Err(e) => {
                self.set_error(e);
                return Result::Err(REX_EOF);
            },
        };
        if tag != expected_tag {
            self.set_error(what);
            return Result::Err(REX_TYPE);
        }
        let name_end = body_start.saturating_sub(1);
        if name_end < start || name_end > self.data.len() {
            self.set_error("name span out of bounds");
            return Result::Err(REX_ERR);
        }
        self.pos = body_start;
        Result::Ok((start, name_end - start))
    }

    /// Reads a reference (`'`), such as `t` for true (see `name_read`).
    pub fn read_ref(&mut self) -> (r: Result<(usize, usize), i32>)
        ensures
            r == name_read(old(self)@, 39, "expected ref value"@).0,
            final(self)@ == name_read(old(self)@, 39, "expected ref value"@).1,
    {
        self.read_name_like(39u8, "expected ref value")
    }

    /// Reads a variable (`$`) (see `name_read`).
    pub fn read_variable(&mut self) -> (r: Result<(usize, usize), i32>)
        ensures
            r == name_read(old(self)@, 36, "expected variable value"@).0,
            final(self)@ == name_read(old(self)@, 36, "expected variable value"@).1,
    {
        self.read_name_like(36u8, "expected variable value")
    }

    /// Reads an opcode (`%`) (see `name_read`).
    pub fn read_opcode(&mut self) -> (r: Result<(usize, usize), i32>)
        ensures
            r == name_read(old(self)@, 37, "expected opcode value"@).0,
            final(self)@ == name_read(old(self)@, 37, "expected opcode value"@).1,
    {
        self.read_name_like(37u8, "expected opcode value")
    }
}

/// Reading a name whose tag is `tag` at the cursor `c` (`what` is the
/// message when the tag differs): the result, the span of the name (the
/// bytes before the tag), and the cursor after.
pub open spec fn name_read(c: CursorV, tag: u8, what: Seq<char>) -> (Result<(usize, usize), i32>, CursorV) {
    match header(c.data, c.pos) {
        Result::Ok((_, _, t, b)) => if t != tag {
            (Result::Err(REX_TYPE), with_error(c, what))
        } else {
            let name_end = if b >= 1 { b - 1 } else { 0 };
            if name_end < c.pos || name_end > c.data.len() {
                (Result::Err(REX_ERR), with_error(c, "name span out of bounds"@))
            } else {
                (Result::Ok((c.pos as usize, (name_end - c.pos) as usize)), at(c, b))
            }
        },
        Result::Err(m) => (Result::Err(REX_EOF), with_error(c, m)),
    }
}

// ── Containers ──────────────────────────────────────────────────────────

/// `c` at position `p` with the frame `f` opened.
pub open spec fn opened(c: CursorV, p: int, f: Frame) -> CursorV {
    CursorV { data: c.data, pos: p, stack: c.stack.push(f), last_error: c.last_error }
}

/// Opening a container whose tag is `expected` at the cursor `c`: whether
/// it is indexed and how many entries its table has, or the status; and the
/// cursor after. A sized container's body ends at its closer; an unsized
/// array or object may start with a pointer table (`<count*8+width-1>#`),
/// which the body follows.
pub open spec fn open_v(c: CursorV, expected: u8) -> (Result<(bool, usize), i32>, CursorV) {
    match header(c.data, c.pos) {
        Result::Err(m) => (Result::Err(REX_EOF), with_error(c, m)),
        Result::Ok((v, d, tag, bp)) => if tag != expected {
            (Result::Err(REX_TYPE), with_error(c, "unexpected value kind for container open"@))
        } else if tag != 91 && tag != 123 && tag != 40 {
            (Result::Err(REX_ERR), with_error(c, "invalid container tag"@))
        } else {
            let closer = closer_of(tag);
            let end = sat_add(bp, (v as u64) as usize as int);
            if d > 0 && end >= c.data.len() {
                (Result::Err(REX_ERR), with_error(c, "sized container body out of bounds"@))
            } else if d > 0 && c.data[end] != closer {
                (Result::Err(REX_ERR), with_error(c, "sized container closer mismatch"@))
            } else {
                let (d2, packed) = numeral_at(c.data, bp);
                let q = bp + d2;
                if d == 0 && (tag == 91 || tag == 123) && d2 > 0 && q < c.data.len() && c.data[q] == 35 {
                    let count = ((packed as u64) >> 3u64) as usize;
                    let width = (((packed as u64) & 7u64) as usize + 1) as usize;
                    let table_len = sat_mul(count as int, width as int);
                    if sat_add(q + 1, table_len) > c.data.len() {
                        (Result::Err(REX_ERR), with_error(c, "indexed table out of bounds"@))
                    } else {
                        let body = sat_add(q + 1, table_len);
                        (
                            Result::Ok((true, count)),
                            opened(
                                c,
                                body,
                                Frame {
                                    closer,
                                    body_end: Option::None,
                                    indexed: true,
                                    count,
                                    width,
                                    table_start: (q + 1) as usize,
                                    body_start: body as usize,
                                    container_tag: tag,
                                },
                            ),
                        )
                    }
                } else {
                    (
                        Result::Ok((false, 0)),
                        opened(
                            c,
                            bp,
                            Frame {
                                closer,
                                body_end: if d > 0 { Option::Some(end as usize) } else { Option::None },
                                indexed: false,
                                count: 0,
                                width: 0,
                                table_start: 0,
                                body_start: bp as usize,
                                container_tag: tag,
                            },
                        ),
                    )
                }
            }
        },
    }
}

/// Whether the cursor `c` is at the end of the innermost open container
/// (or of the input, with none open): 1 or 0.
pub open spec fn at_end_v(c: CursorV) -> i32 {
    if c.stack.len() == 0 {
        if c.pos >= c.data.len() { 1 } else { 0 }
    } else {
        let f = c.stack.last();
        match f.body_end {
            Option::Some(end) => if c.pos >= end { 1 } else { 0 },
            Option::None => if c.pos >= c.data.len() {
                1
            } else if c.data[c.pos] == f.closer {
                1
            } else {
                0
            },
        }
    }
}

/// Skipping values from `pos` up to the byte `closer` (or the end): where
/// that stops, and the error that stopped it early, if one did.
pub open spec fn close_scan(s: Seq<u8>, pos: int, closer: u8) -> (int, Option<Seq<char>>)
    decreases s.len() - pos,
{
    if pos < 0 || pos >= s.len() || s[pos] == closer {
        (pos, Option::None)
    } else {
        match skip_v(s, pos) {
            Result::Ok(q) => if pos < q <= s.len() {
                close_scan(s, q, closer)
            } else {
                (pos, Option::None)
            },
            Result::Err(m) => (pos, Option::Some(m)),
        }
    }
}

/// Moving past the closer `closer` at the position of `c`.
pub open spec fn past_closer(c: CursorV, closer: u8) -> (i32, CursorV) {
    if c.pos >= c.data.len() || c.data[c.pos] != closer {
        (REX_ERR, with_error(c, "container closer mismatch"@))
    } else {
        (REX_OK, at(c, c.pos + 1))
    }
}

/// Closing the innermost open container at the cursor `c`: the status and
/// the cursor after (past the container's closer).
pub open spec fn close_v(c: CursorV) -> (i32, CursorV) {
    if c.stack.len() == 0 {
        (REX_ERR, with_error(c, "no open container frame"@))
    } else {
        let f = c.stack.last();
        let c1 = CursorV { data: c.data, pos: c.pos, stack: c.stack.drop_last(), last_error: c.last_error };
        match f.body_end {
            Option::Some(end) => past_closer(at(c1, end as int), f.closer),
            Option::None => {
                let (p, err) = close_scan(c.data, c.pos, f.closer);
                match err {
                    Option::Some(m) => (REX_ERR, with_error(at(c1, p), m)),
                    Option::None => past_closer(at(c1, p), f.closer),
                }
            },
        }
    }
}

impl RexCursor {
    /// Opens the container at the position when its tag is `expected_tag`
    /// (see `open_v`).
    fn open_container(&mut self, expected_tag: u8) -> (r: Result<(bool, usize), i32>)
        ensures
            r == open_v(old(self)@, expected_tag).0,
            final(self)@ == open_v(old(self)@, expected_tag).1,
    {
        let (varint, digits_len, tag, body_pos0) = match self.parse_header_at_pos() {
            Result::Ok(h) => h,
            Result::Err(e) => {
                self.set_error(e);
                return Result::Err(REX_EOF);
            },
        };
        let mut body_pos = body_pos0;
        if tag != expected_tag {
            self.set_error("unexpected value kind for container open");
            return Result::Err(REX_TYPE);
        }
        let closer: u8 = if tag == 91u8 {
            93u8
        } else if tag == 123u8 {
            125u8
        } else if tag == 40u8 {
            41u8
        } else {
            self.set_error("invalid container tag");
            return Result::Err(REX_ERR);
        };
        let mut body_end: Option<usize> = Option::None;
        if digits_len > 0 {
            let end = body_pos.saturating_add(varint as usize);
            if end >= self.data.len() {
                self.set_error("sized container body out of bounds");
                return Result::Err(REX_ERR);
            }
            if self.data[end] != closer {
                self.set_error("sized container closer mismatch");
                return Result::Err(REX_ERR);
            }
            body_end = Option::Some(end);
        }
        let mut indexed = false;
        let mut count: usize = 0;
        let mut width: usize = 0;
        let mut table_start: usize = 0;
        if body_end.is_none() && (tag == 91u8 || tag == 123u8) {
            let mut p = body_pos;
            let (packed, dlen) = parse_varint(self.data.as_slice(), &mut p);
            if dlen > 0 && p < self.data.len() && self.data[p] == 35u8 {
                count = (packed >> 3u64) as usize;
                assert(packed & 7u64 <= 7u64) by (bit_vector);
                width = ((packed & 7u64) as usize) + 1;
                p += 1;
                table_start = p;
                let table_len = sat_mul_usize(count, width);
                if p.saturating_add(table_len) > self.data.len() {
                    self.set_error("indexed table out of bounds");
                    return Result::Err(REX_ERR);
                }
                indexed = true;
                body_pos = p.saturating_add(table_len);
            }
        }
        self.pos = body_pos;
        self.stack.push(
            Frame {
                closer,
                body_end,
                indexed,
                count,
                width,
                table_start,
                body_start: body_pos,
                container_tag: tag,
            },
        );
        Result::Ok((indexed, count))
    }

    /// Opens the array at the position: whether it is indexed and how many
    /// entries its table has (see `open_v`).
    pub fn open_array(&mut self) -> (r: Result<(bool, usize), i32>)
        ensures
            r == open_v(old(self)@, 91).0,
            final(self)@ == open_v(old(self)@, 91).1,
    {
        self.open_container(91u8)
    }

    /// Opens the object at the position (see `open_v`).
    pub fn open_object(&mut self) -> (r: Result<(bool, usize), i32>)
        ensures
            r == open_v(old(self)@, 123).0,
            final(self)@ == open_v(old(self)@, 123).1,
    {
        self.open_container(123u8)
    }

    /// Opens the call at the position: the status (see `open_v`).
    pub fn open_call(&mut self) -> (r: i32)
        ensures
            r == match open_v(old(self)@, 40).0 {
                Result::Ok(_) => REX_OK,
                Result::Err(e) => e,
            },
            final(self)@ == open_v(old(self)@, 40).1,
    {
        match self.open_container(40u8) {
            Result::Ok(_) => REX_OK,
            Result::Err(e) => e,
        }
    }

    /// Whether the cursor is at the end of the innermost open container, or
    /// of the input with none open: 1 or 0.
    pub fn at_end(&self) -> (r: i32)
        ensures
            r == at_end_v(self@),
    {
        if self.stack.len() == 0 {
            return if self.pos >= self.data.len() {
                1
            } else {
                0
            };
        }
        let frame = self.stack[self.stack.len() - 1];
        match frame.body_end {
            Option::Some(end) => if self.pos >= end {
                1
            } else {
                0
            },
            Option::None => if self.pos >= self.data.len() {
                1
            } else if self.data[self.pos] == frame.closer {
                1
            } else {
                0
            },
        }
    }

    /// Closes the innermost open container and moves past its closer (see
    /// `close_v`).
    pub fn close(&mut self) -> (r: i32)
        ensures
            r == close_v(old(self)@).0,
            final(self)@ == close_v(old(self)@).1,
    {
        let frame = match self.stack.pop() {
            Option::Some(f) => f,
            Option::None => {
                self.set_error("no open container frame");
                return REX_ERR;
            },
        };
        match frame.body_end {
            Option::Some(end) => {
                self.pos = end;
            },
            Option::None => {
                let ghost s = self.data@;
                let ghost start = self.pos as int;
                let ghost st = self.stack@;
                let ghost le = self.last_error@;
                while self.pos < self.data.len() && self.data[self.pos as usize] != frame.closer
                    invariant_except_break
                        self.data@ == s,
                        self.stack@ == st,
                        self.last_error@ == le,
                        s == old(self)@.data,
                        st == old(self)@.stack.drop_last(),
                        le == old(self)@.last_error,
                        old(self)@.stack.len() > 0,
                        frame == old(self)@.stack.last(),
                        frame.body_end is None,
                        start == old(self)@.pos,
                        close_scan(s, start, frame.closer) == close_scan(s, self.pos as int, frame.closer),
                    ensures
                        self.data@ == s,
                        self.stack@ == st,
                        self.last_error@ == le,
                        close_scan(s, start, frame.closer) == close_scan(s, self.pos as int, frame.closer),
                        self.pos >= s.len() || s[self.pos as int] == frame.closer,
                    decreases s.len() - self.pos,
                {
                    match skip_value_from(self.data.as_slice(), self.pos) {
                        Result::Ok(next) => {
                            self.pos = next;
                        },
                        Result::Err(e) => {
                            self.set_error(e);
                            return REX_ERR;
                        },
                    }
                }
            },
        }
        if self.pos >= self.data.len() || self.data[self.pos] != frame.closer {
            self.set_error("container closer mismatch");
            return REX_ERR;
        }
        self.pos = self.pos + 1;
        REX_OK
    }
}

// ── Seeking ─────────────────────────────────────────────────────────────

/// Seeking entry `index` of the indexed array opened last, at the cursor
/// `c`: the status and the cursor after (at the entry, found through the
/// pointer table).
pub open spec fn seek_index_v(c: CursorV, index: int) -> (i32, CursorV) {
    if c.stack.len() == 0 {
        (REX_ERR, with_error(c, "no open container frame"@))
    } else {
        let f = c.stack.last();
        if f.container_tag != 91 {
            (REX_TYPE, with_error(c, "array_seek_index requires open array frame"@))
        } else if !f.indexed {
            (REX_TYPE, with_error(c, "array_seek_index requires indexed array (#)"@))
        } else if index >= f.count {
            (REX_EOF, with_error(c, "array index out of bounds"@))
        } else {
            let ptr_pos = sat_add(f.table_start as int, sat_mul(index, f.width as int));
            match fixed_v(c.data, ptr_pos, f.width as int) {
                Option::None => (REX_ERR, with_error(c, "invalid indexed array pointer table entry"@)),
                Option::Some(off) => {
                    let abs = sat_add(f.body_start as int, off);
                    if abs >= c.data.len() {
                        (REX_ERR, with_error(c, "indexed array pointer target out of bounds"@))
                    } else {
                        (REX_OK, at(c, abs))
                    }
                },
            }
        }
    }
}

/// Whether the bytes `a` come before the bytes `b` in lexicographic order.
pub open spec fn lex_below(a: Seq<u8>, b: Seq<u8>) -> bool
    decreases a.len(),
{
    if a.len() == 0 {
        b.len() > 0
    } else if b.len() == 0 {
        false
    } else if a[0] != b[0] {
        a[0] < b[0]
    } else {
        lex_below(a.drop_first(), b.drop_first())
    }
}

/// A key as an object table holds it: its length numeral, a comma and its
/// bytes.
pub open spec fn encoded_key(key: Seq<u8>) -> Seq<u8> {
    encode_b64(key.len()) + seq![44u8] + key
}

/// Binary search for the encoded key `ek` among the entries `lo` to `hi` of
/// the pointer table of `f` (sorted by key): where the key's encoding ends,
/// or the status and message.
pub open spec fn seek_key_from(s: Seq<u8>, f: Frame, ek: Seq<u8>, lo: int, hi: int) -> Result<int, (i32, Seq<char>)>
    decreases hi - lo,
{
    if lo >= hi {
        Result::Err((REX_EOF, "object key not found"@))
    } else {
        let mid = lo + (hi - lo) / 2;
        let ptr_pos = sat_add(f.table_start as int, sat_mul(mid, f.width as int));
        match fixed_v(s, ptr_pos, f.width as int) {
            Option::None => Result::Err((REX_ERR, "invalid indexed object pointer table entry"@)),
            Option::Some(off) => match string_span(s, sat_add(f.body_start as int, off)) {
                Option::None => Result::Err(
                    (REX_ERR, "indexed object key is not a valid encoded string"@),
                ),
                Option::Some((ks, ke)) => {
                    let k = s.subrange(ks, ke);
                    if lex_below(k, ek) {
                        seek_key_from(s, f, ek, mid + 1, hi)
                    } else if k == ek {
                        Result::Ok(ke)
                    } else {
                        seek_key_from(s, f, ek, lo, mid)
                    }
                },
            },
        }
    }
}

/// Seeking the value of `key` in the indexed object opened last, at the
/// cursor `c`: the status and the cursor after (just past the key).
pub open spec fn seek_key_v(c: CursorV, key: Seq<u8>) -> (i32, CursorV) {
    if c.stack.len() == 0 {
        (REX_ERR, with_error(c, "no open container frame"@))
    } else {
        let f = c.stack.last();
        if f.container_tag != 123 {
            (REX_TYPE, with_error(c, "object_seek_key requires open object frame"@))
        } else if !f.indexed {
            (REX_TYPE, with_error(c, "object_seek_key requires indexed object (#)"@))
        } else {
            match seek_key_from(c.data, f, encoded_key(key), 0, f.count as int) {
                Result::Ok(e) => (REX_OK, at(c, e)),
                Result::Err((st, m)) => (st, with_error(c, m)),
            }
        }
    }
}

/// A string's span starts where it was looked for and ends inside the
/// input.
proof fn lemma_string_span_bounds(s: Seq<u8>, pos: int)
    requires
        s.len() <= usize::MAX,
    ensures
        match string_span(s, pos) {
            Option::Some((a, b)) => a == pos && 0 <= a <= b <= s.len(),
            Option::None => true,
        },
{
    if 0 <= pos < s.len() {
        lemma_digit_run_bound(s, pos);
    }
}

/// Comparing past a common prefix compares the rest.
proof fn lemma_lex_skip(x: Seq<u8>, y: Seq<u8>, i: int)
    requires
        0 <= i <= x.len(),
        i <= y.len(),
        x.take(i) == y.take(i),
    ensures
        lex_below(x, y) == lex_below(x.skip(i), y.skip(i)),
    decreases i,
{
    if i == 0 {
        assert(x.skip(0) =~= x);
        assert(y.skip(0) =~= y);
    } else {
        assert(x[0] == x.take(i)[0]);
        assert(y[0] == y.take(i)[0]);
        assert(x.drop_first().take(i - 1) =~= x.take(i).drop_first());
        assert(y.drop_first().take(i - 1) =~= y.take(i).drop_first());
        lemma_lex_skip(x.drop_first(), y.drop_first(), i - 1);
        assert(x.drop_first().skip(i - 1) =~= x.skip(i));
        assert(y.drop_first().skip(i - 1) =~= y.skip(i));
    }
}

/// How the bytes `a` to `b` of `data` order against `key`: -1 before, 0
/// equal, 1 after.
fn order_bytes(data: &Vec<u8>, a: usize, b: usize, key: &Vec<u8>) -> (r: i8)
    requires
        a <= b <= data@.len(),
    ensures
        r == -1 <==> lex_below(data@.subrange(a as int, b as int), key@),
        r == 0 <==> data@.subrange(a as int, b as int) == key@,
        r == -1 || r == 0 || r == 1,
{
    let ghost x = data@.subrange(a as int, b as int);
    let ghost y = key@;
    let la = b - a;
    let lb = key.len();
    let _n = data.len();
    let mut i: usize = 0;
    while i < la && i < lb
        invariant
            0 <= i <= la,
            b == a + la,
            data@.len() <= usize::MAX,
            i <= lb,
            la == x.len(),
            lb == y.len(),
            a + la <= data@.len(),
            x == data@.subrange(a as int, b as int),
            y == key@,
            x.take(i as int) == y.take(i as int),
        decreases la - i,
    {
        let u = data[a + i];
        let v = key[i];
        proof {
            assert(x[i as int] == u);
        }
        if u != v {
            proof {
                lemma_lex_skip(x, y, i as int);
                assert(x.skip(i as int)[0] == u);
                assert(y.skip(i as int)[0] == v);
                assert(x[i as int] != y[i as int]);
            }
            return if u < v {
                -1
            } else {
                1
            };
        }
        proof {
            assert(x.take(i + 1) =~= x.take(i as int).push(u));
            assert(y.take(i + 1) =~= y.take(i as int).push(v));
        }
        i += 1;
    }
    proof {
        lemma_lex_skip(x, y, i as int);
        if la == lb {
            assert(x =~= x.take(i as int));
            assert(y =~= y.take(i as int));
        } else {
            if i == la {
                assert(x.skip(i as int).len() == 0);
                assert(x.len() != y.len());
            } else {
                assert(y.skip(i as int).len() == 0);
                assert(x.len() != y.len());
            }
        }
    }
    if la == lb {
        0
    } else if i == la {
        -1
    } else {
        1
    }
}

impl RexCursor {
    /// Moves to entry `index` of the indexed array opened last (see
    /// `seek_index_v`).
    pub fn array_seek_index(&mut self, index: usize) -> (r: i32)
        ensures
            r == seek_index_v(old(self)@, index as int).0,
            final(self)@ == seek_index_v(old(self)@, index as int).1,
    {
        if self.stack.len() == 0 {
            self.set_error("no open container frame");
            return REX_ERR;
        }
        let frame = self.stack[self.stack.len() - 1];
        if frame.container_tag != 91u8 {
            self.set_error("array_seek_index requires open array frame");
            return REX_TYPE;
        }
        if !frame.indexed {
            self.set_error("array_seek_index requires indexed array (#)");
            return REX_TYPE;
        }
        if index >= frame.count {
            self.set_error("array index out of bounds");
            return REX_EOF;
        }
        let ptr_pos = frame.table_start.saturating_add(sat_mul_usize(index, frame.width));
        let off = match read_fixed_b64(self.data.as_slice(), ptr_pos, frame.width) {
            Option::Some(o) => o,
            Option::None => {
                self.set_error("invalid indexed array pointer table entry");
                return REX_ERR;
            },
        };
        let abs = frame.body_start.saturating_add(off);
        if abs >= self.data.len() {
            self.set_error("indexed array pointer target out of bounds");
            return REX_ERR;
        }
        self.pos = abs;
        REX_OK
    }

    /// Moves just past `key` in the indexed object opened last, found by
    /// binary search over its sorted pointer table (see `seek_key_v`).
    pub fn object_seek_key(&mut self, key: &Vec<u8>) -> (r: i32)
        ensures
            r == seek_key_v(old(self)@, key@).0,
            final(self)@ == seek_key_v(old(self)@, key@).1,
    {
        if self.stack.len() == 0 {
            self.set_error("no open container frame");
            return REX_ERR;
        }
        let frame = self.stack[self.stack.len() - 1];
        if frame.container_tag != 123u8 {
            self.set_error("object_seek_key requires open object frame");
            return REX_TYPE;
        }
        if !frame.indexed {
            self.set_error("object_seek_key requires indexed object (#)");
            return REX_TYPE;
        }
        let mut encoded: Vec<u8> = Vec::new();
        encode_varint_ascii(key.len(), &mut encoded);
        proof {
            if key@.len() == 0 {
                assert(encoded@ =~= encode_b64(0));
            }
        }
        encoded.push(44u8);
        let mut i: usize = 0;
        let ghost head = encoded@;
        while i < key.len()
            invariant
                0 <= i <= key@.len(),
                encoded@ == head + key@.take(i as int),
            decreases key@.len() - i,
        {
            encoded.push(key[i]);
            proof {
                assert(key@.take(i + 1) =~= key@.take(i as int).push(key@[i as int]));
                assert(head + key@.take(i + 1) =~= (head + key@.take(i as int)).push(key@[i as int]));
            }
            i += 1;
        }
        proof {
            assert(key@.take(key@.len() as int) =~= key@);
            assert(encoded@ =~= encoded_key(key@));
        }
        let ghost s = self.data@;
        let _dl = self.data.len();
        let mut lo: usize = 0;
        let mut hi: usize = frame.count;
        while lo < hi
            invariant
                lo <= hi <= frame.count,
                self.data@ == s,
                s.len() <= usize::MAX,
                self@ == old(self)@,
                old(self)@.stack.len() > 0,
                frame == old(self)@.stack.last(),
                frame.container_tag == 123,
                frame.indexed,
                encoded@ == encoded_key(key@),
                seek_key_from(s, frame, encoded@, 0, frame.count as int) == seek_key_from(
                    s,
                    frame,
                    encoded@,
                    lo as int,
                    hi as int,
                ),
            decreases hi - lo,
        {
            let mid = lo + (hi - lo) / 2;
            let ptr_pos = frame.table_start.saturating_add(sat_mul_usize(mid, frame.width));
            let off = match read_fixed_b64(self.data.as_slice(), ptr_pos, frame.width) {
                Option::Some(o) => o,
                Option::None => {
                    self.set_error("invalid indexed object pointer table entry");
                    return REX_ERR;
                },
            };
            let pair_start = frame.body_start.saturating_add(off);
            let (k_start, k_end) = match encoded_string_span_at(self.data.as_slice(), pair_start) {
                Option::Some(sp) => sp,
                Option::None => {
                    self.set_error("indexed object key is not a valid encoded string");
                    return REX_ERR;
                },
            };
            proof {
                lemma_string_span_bounds(s, pair_start as int);
            }
            let o = order_bytes(&self.data, k_start, k_end, &encoded);
            if o == -1 {
                lo = mid + 1;
            } else if o == 1 {
                hi = mid;
            } else {
                self.pos = k_end;
                return REX_OK;
            }
        }
        self.set_error("object key not found");
        REX_EOF
    }
}

// ── Laws ────────────────────────────────────────────────────────────────

/// When the items from `x` skip up to a closer, scanning them to close the
/// container stops on that closer, with no error.
proof fn lemma_scan_items(s: Seq<u8>, x: int, closer: u8, missing: Seq<char>)
    ensures
        skip_items(s, x, closer, missing) is Ok ==> {
            let e = skip_items(s, x, closer, missing)->Ok_0;
            &&& close_scan(s, x, closer) == (e - 1, Option::<Seq<char>>::None)
            &&& 0 <= e - 1 < s.len()
            &&& s[e - 1] == closer
        },
    decreases s.len() - x,
{
    if 0 <= x < s.len() && s[x] != closer {
        match skip_v(s, x) {
            Result::Ok(q) => if x < q <= s.len() {
                lemma_scan_items(s, q, closer, missing);
            },
            Result::Err(_) => {},
        }
    }
}

/// Opening a container and closing it at once moves past the whole
/// container, as skipping it does, and leaves the open containers and the
/// error message as they were.
pub proof fn law_open_close_skips(c: CursorV, tag: u8)
    requires
        c.data.len() <= usize::MAX,
        open_v(c, tag).0 is Ok,
        skip_v(c.data, c.pos) is Ok,
    ensures
        close_v(open_v(c, tag).1) == (REX_OK, at(c, skip_v(c.data, c.pos)->Ok_0)),
{
    let s = c.data;
    let (v, d, t, bp) = header(s, c.pos)->Ok_0;
    let closer = closer_of(t);
    lemma_digit_run_bound(s, c.pos);
    let (d2, packed) = numeral_at(s, bp);
    if bp <= s.len() {
        lemma_digit_run_bound(s, bp);
    }
    let pk = packed as u64;
    assert(pk & 7u64 <= 7u64) by (bit_vector);
    let o = open_v(c, tag).1;
    let f = o.stack.last();
    assert(o.stack.drop_last() =~= c.stack);
    if d == 0 {
        lemma_scan_items(s, o.pos, closer, "missing container closer"@);
    }
}

} // verus!
