//! Low-level pieces of the REXC bytecode text format: base-64 numerals,
//! zigzag integers, length-prefixed strings, and skipping over encoded values.

use vstd::prelude::*;

verus! {

pub const REX_KIND_INT: i32 = 1;
pub const REX_KIND_DECIMAL: i32 = 2;
pub const REX_KIND_STRING: i32 = 3;
pub const REX_KIND_REF: i32 = 4;
pub const REX_KIND_VARIABLE: i32 = 5;
pub const REX_KIND_OPCODE: i32 = 6;
pub const REX_KIND_BREAK_CONT: i32 = 7;
pub const REX_KIND_POINTER: i32 = 8;
pub const REX_KIND_ARRAY: i32 = 9;
pub const REX_KIND_OBJECT: i32 = 10;
pub const REX_KIND_CALL: i32 = 11;
pub const REX_KIND_COMPOUND: i32 = 12;
pub const REX_KIND_CHAIN: i32 = 13;
pub const REX_KIND_SET: i32 = 14;
pub const REX_KIND_SWAP: i32 = 15;
pub const REX_KIND_DELETE: i32 = 16;
pub const REX_KIND_RETURN: i32 = 17;

/// The value of a base-64 digit: `0-9`, `a-z`, `A-Z`, `-`, `_` stand for 0 to 63.
pub open spec fn b64_digit(b: u8) -> Option<int> {
    if 48 <= b <= 57 {
        Option::Some(b - 48)
    } else if 97 <= b <= 122 {
        Option::Some(b - 97 + 10)
    } else if 65 <= b <= 90 {
        Option::Some(b - 65 + 36)
    } else if b == 45 {
        Option::Some(62)
    } else if b == 95 {
        Option::Some(63)
    } else {
        Option::None
    }
}

/// The value of a digit, 0 for a byte that is not one.
pub open spec fn digit_or_zero(b: u8) -> int {
    match b64_digit(b) {
        Option::Some(v) => v,
        Option::None => 0,
    }
}

/// The number written by a sequence of base-64 digits, most significant first
/// (bytes that are not digits count as 0).
pub open spec fn b64_number(s: Seq<u8>) -> int
    decreases s.len(),
{
    if s.len() == 0 {
        0
    } else {
        b64_number(s.drop_last()) * 64 + digit_or_zero(s.last())
    }
}

/// The digit character for a value below 64.
pub open spec fn digit_char(d: int) -> u8 {
    if d < 10 {
        (48 + d) as u8
    } else if d < 36 {
        (97 + d - 10) as u8
    } else if d < 62 {
        (65 + d - 36) as u8
    } else if d == 62 {
        45u8
    } else {
        95u8
    }
}

/// The shortest base-64 numeral for `n` (empty for 0).
pub open spec fn encode_b64(n: nat) -> Seq<u8>
    decreases n,
{
    if n == 0 {
        Seq::empty()
    } else {
        encode_b64(n / 64).push(digit_char((n % 64) as int))
    }
}

/// The number of base-64 digits of `n` (0 for 0).
pub open spec fn b64_width(n: nat) -> nat
    decreases n,
{
    if n == 0 {
        0
    } else {
        1 + b64_width(n / 64)
    }
}

/// Whether every byte of `s` is a base-64 digit.
pub open spec fn all_digits(s: Seq<u8>) -> bool {
    forall|i: int| 0 <= i < s.len() ==> (#[trigger] b64_digit(s[i])) is Some
}

/// Length of the run of digits in `s` starting at `pos`.
pub open spec fn digit_run(s: Seq<u8>, pos: int) -> int
    decreases s.len() - pos,
{
    if pos < 0 || pos >= s.len() {
        0
    } else if b64_digit(s[pos]) is Some {
        1 + digit_run(s, pos + 1)
    } else {
        0
    }
}

/// `x` capped at the largest `u64`.
pub open spec fn cap_u64(x: int) -> int {
    if x > u64::MAX {
        u64::MAX as int
    } else {
        x
    }
}

/// `n * 64`, capped at the largest `u64`.
pub fn sat_mul64_u64(n: u64) -> (r: u64)
    ensures
        r == cap_u64(n * 64),
{
    if n > u64::MAX / 64 {
        u64::MAX
    } else {
        n * 64
    }
}

/// `n * 64`, capped at the largest `usize`.
pub fn sat_mul64_usize(n: usize) -> (r: usize)
    ensures
        r == cap_usize(n * 64),
{
    if n > usize::MAX / 64 {
        usize::MAX
    } else {
        n * 64
    }
}

/// The value of a base-64 digit.
pub fn b64_val(byte: u8) -> (r: Option<u8>)
    ensures
        match r {
            Option::Some(v) => b64_digit(byte) == Option::Some(v as int),
            Option::None => b64_digit(byte) is None,
        },
{
    if 48u8 <= byte && byte <= 57u8 {
        Option::Some(byte - 48u8)
    } else if 97u8 <= byte && byte <= 122u8 {
        Option::Some(byte - 97u8 + 10)
    } else if 65u8 <= byte && byte <= 90u8 {
        Option::Some(byte - 65u8 + 36)
    } else if byte == 45u8 {
        Option::Some(62)
    } else if byte == 95u8 {
        Option::Some(63)
    } else {
        Option::None
    }
}

/// Whether a byte is a base-64 digit.
pub fn is_b64(b: u8) -> (r: bool)
    ensures
        r == (b64_digit(b) is Some),
{
    b64_val(b).is_some()
}

/// The number written by `raw` (bytes that are not digits count as 0).
pub fn parse_uint(raw: &[u8]) -> (r: u64)
    requires
        b64_number(raw@) <= u64::MAX,
    ensures
        r == b64_number(raw@),
{
    let mut n: u64 = 0;
    let mut i: usize = 0;
    while i < raw.len()
        invariant
            0 <= i <= raw@.len(),
            n == b64_number(raw@.take(i as int)),
            b64_number(raw@) <= u64::MAX,
        decreases raw@.len() - i,
    {
        proof {
            assert(raw@.take(i + 1).drop_last() =~= raw@.take(i as int));
            lemma_b64_number_prefix_le(raw@, i + 1);
        }
        let d: u64 = match b64_val(raw[i]) {
            Option::Some(v) => v as u64,
            Option::None => 0,
        };
        n = n * 64 + d;
        i += 1;
    }
    proof {
        assert(raw@.take(raw@.len() as int) =~= raw@);
    }
    n
}

/// The number of a prefix is at most that of the whole.
pub proof fn lemma_b64_number_prefix_le(s: Seq<u8>, k: int)
    requires
        0 <= k <= s.len(),
    ensures
        0 <= b64_number(s.take(k)) <= b64_number(s),
    decreases s.len(),
{
    lemma_b64_number_nonneg(s);
    if k < s.len() {
        assert(s.drop_last().take(k) =~= s.take(k));
        lemma_b64_number_prefix_le(s.drop_last(), k);
        lemma_b64_number_nonneg(s.drop_last());
    } else {
        assert(s.take(k) =~= s);
    }
}

/// Numbers of digit sequences are never negative.
pub proof fn lemma_b64_number_nonneg(s: Seq<u8>)
    ensures
        b64_number(s) >= 0,
    decreases s.len(),
{
    if s.len() > 0 {
        lemma_b64_number_nonneg(s.drop_last());
    }
}

/// Zigzag decoding: even `n` to `n / 2`, odd `n` to `-(n / 2) - 1`.
pub fn zigzag_decode(n: u64) -> (r: i64)
    ensures
        r == if n % 2 == 0 {
            (n / 2) as int
        } else {
            -((n / 2) as int) - 1
        },
{
    if n % 2 == 0 {
        (n / 2) as i64
    } else {
        -((n / 2) as i64) - 1
    }
}

/// Reads the run of digits at `*pos`, advancing `*pos` past it. Returns the
/// number (capped at the largest `u64`) and the count of digits read.
pub fn parse_varint(input: &[u8], pos: &mut usize) -> (r: (u64, usize))
    requires
        *old(pos) <= input@.len(),
    ensures
        r.1 == digit_run(input@, *old(pos) as int),
        *final(pos) == *old(pos) + r.1,
        r.0 == cap_u64(b64_number(input@.subrange(*old(pos) as int, *final(pos) as int))),
{
    let start = *pos;
    let mut n: u64 = 0;
    proof {
        lemma_digit_run_bound(input@, start as int);
    }
    while *pos < input.len()
        invariant_except_break
            start <= *pos <= input@.len(),
            n == cap_u64(b64_number(input@.subrange(start as int, *pos as int))),
            digit_run(input@, start as int) == (*pos - start) + digit_run(input@, *pos as int),
        ensures
            start <= *pos <= input@.len(),
            n == cap_u64(b64_number(input@.subrange(start as int, *pos as int))),
            digit_run(input@, start as int) == *pos - start,
        decreases input@.len() - *pos,
    {
        let p = *pos;
        match b64_val(input[p]) {
            Option::Some(v) => {
                proof {
                    let prefix = input@.subrange(start as int, p as int);
                    let next = input@.subrange(start as int, p + 1);
                    assert(next.drop_last() =~= prefix);
                    assert(next.last() == input@[p as int]);
                    lemma_b64_number_nonneg(prefix);
                    assert(b64_number(next) == b64_number(prefix) * 64 + v);
                }
                n = sat_mul64_u64(n).saturating_add(v as u64);
                *pos = p + 1;
            },
            Option::None => {
                break;
            },
        }
    }
    (n, *pos - start)
}

/// The digit run starting at `pos` stays inside the input.
pub proof fn lemma_digit_run_bound(s: Seq<u8>, pos: int)
    requires
        0 <= pos <= s.len(),
    ensures
        0 <= digit_run(s, pos) <= s.len() - pos,
    decreases s.len() - pos,
{
    if pos < s.len() {
        lemma_digit_run_bound(s, pos + 1);
    }
}

/// The width of `n` is at most `n`.
pub proof fn lemma_b64_width_le(n: nat)
    ensures
        b64_width(n) <= n,
    decreases n,
{
    if n > 0 {
        lemma_b64_width_le(n / 64);
    }
}

/// The number of base-64 digits of `n` (0 for 0).
pub fn varint_width(n: usize) -> (r: usize)
    ensures
        r == b64_width(n as nat),
{
    if n == 0 {
        return 0;
    }
    let ghost orig = n;
    let mut n = n;
    let mut w: usize = 0;
    proof {
        lemma_b64_width_le(orig as nat);
    }
    while n > 0
        invariant
            w + b64_width(n as nat) == b64_width(orig as nat),
            b64_width(orig as nat) <= orig,
            orig <= usize::MAX,
        decreases n,
    {
        w += 1;
        n /= 64;
    }
    w
}

/// Replaces the contents of `out` with the base-64 numeral of `n`; leaves
/// `out` as it is when `n` is 0.
pub fn encode_varint_ascii(n: usize, out: &mut Vec<u8>)
    ensures
        n == 0 ==> final(out)@ == old(out)@,
        n != 0 ==> final(out)@ == encode_b64(n as nat),
{
    if n == 0 {
        return;
    }
    out.clear();
    let ghost orig = n;
    let mut n = n;
    let mut rev: Vec<u8> = Vec::new();
    while n > 0
        invariant
            encode_b64(orig as nat) == encode_b64(n as nat) + rev@.reverse(),
        decreases n,
    {
        let digit = n % 64;
        let ch: u8 = if digit < 10 {
            48u8 + digit as u8
        } else if digit < 36 {
            97u8 + (digit as u8 - 10)
        } else if digit < 62 {
            65u8 + (digit as u8 - 36)
        } else if digit == 62 {
            45u8
        } else {
            95u8
        };
        proof {
            assert(ch == digit_char(digit as int));
            let old_rev = rev@;
            assert(encode_b64(n as nat) == encode_b64((n / 64) as nat).push(ch));
            assert(old_rev.push(ch).reverse() =~= seq![ch] + old_rev.reverse());
            assert(encode_b64((n / 64) as nat).push(ch) + old_rev.reverse() =~= encode_b64(
                (n / 64) as nat,
            ) + (seq![ch] + old_rev.reverse()));
        }
        rev.push(ch);
        n /= 64;
    }
    proof {
        assert(encode_b64(0) =~= Seq::<u8>::empty());
        assert(Seq::<u8>::empty() + rev@.reverse() =~= rev@.reverse());
    }
    let mut i: usize = rev.len();
    while i > 0
        invariant
            0 <= i <= rev@.len(),
            out@ == rev@.reverse().take((rev@.len() - i) as int),
        decreases i,
    {
        i -= 1;
        out.push(rev[i]);
        proof {
            assert(rev@.reverse().take((rev@.len() - i) as int) =~= rev@.reverse().take(
                (rev@.len() - i - 1) as int,
            ).push(rev@[i as int]));
        }
    }
    proof {
        assert(rev@.reverse().take(rev@.len() as int) =~= rev@.reverse());
    }
}

/// Reads exactly `width` digits at `start` as a number (capped at the
/// largest `usize`); `None` when they run past the input or one is not a digit.
pub fn read_fixed_b64(input: &[u8], start: usize, width: usize) -> (r: Option<usize>)
    ensures
        match r {
            Option::Some(v) => start + width <= input@.len() && all_digits(
                input@.subrange(start as int, start + width),
            ) && v == cap_usize(b64_number(input@.subrange(start as int, start + width))),
            Option::None => start + width > input@.len() || !all_digits(
                input@.subrange(start as int, start + width),
            ),
        },
{
    if width > input.len() || start > input.len() - width {
        return Option::None;
    }
    let n_in = input.len();
    let mut n: usize = 0;
    let mut i: usize = 0;
    while i < width
        invariant
            0 <= i <= width,
            n_in == input@.len(),
            start + width <= input@.len(),
            all_digits(input@.subrange(start as int, start + i)),
            n == cap_usize(b64_number(input@.subrange(start as int, start + i))),
        decreases width - i,
    {
        let prefix = Ghost(input@.subrange(start as int, start + i));
        let next = Ghost(input@.subrange(start as int, start + i + 1));
        proof {
            assert(next@.drop_last() =~= prefix@);
            assert(next@.last() == input@[start + i]);
            lemma_b64_number_nonneg(prefix@);
        }
        let v = match b64_val(input[start + i]) {
            Option::Some(v) => v as usize,
            Option::None => {
                proof {
                    let whole = input@.subrange(start as int, start + width);
                    assert(whole[i as int] == input@[start + i]);
                    assert(b64_digit(whole[i as int]) is None);
                }
                return Option::None;
            },
        };
        n = sat_mul64_usize(n).saturating_add(v);
        i += 1;
        proof {
            assert forall|j: int| 0 <= j < next@.len() implies (#[trigger] b64_digit(next@[j])) is Some by {
                if j < prefix@.len() {
                    assert(next@[j] == prefix@[j]);
                }
            }
        }
    }
    Option::Some(n)
}

/// `x` capped at the largest `usize`.
pub open spec fn cap_usize(x: int) -> int {
    if x > usize::MAX {
        usize::MAX as int
    } else {
        x
    }
}

/// The span of the length-prefixed string (`<len digits>,<bytes>`) at
/// `pos`: from `pos` to the end of its bytes, when it fits the input.
pub open spec fn string_span(s: Seq<u8>, pos: int) -> Option<(int, int)> {
    if pos < 0 || pos >= s.len() {
        Option::None
    } else {
        let (d, len) = numeral_at(s, pos);
        let p = pos + d;
        if p >= s.len() || s[p] != 44 {
            Option::None
        } else if sat_add(p + 1, (len as u64) as usize as int) > s.len() {
            Option::None
        } else {
            Option::Some((pos, sat_add(p + 1, (len as u64) as usize as int)))
        }
    }
}

/// The span of a length-prefixed string at `pos` (see `string_span`).
pub fn encoded_string_span_at(input: &[u8], pos: usize) -> (r: Option<(usize, usize)>)
    ensures
        match r {
            Option::Some((a, b)) => string_span(input@, pos as int) == Option::Some(
                (a as int, b as int),
            ),
            Option::None => string_span(input@, pos as int) is None,
        },
{
    if pos >= input.len() {
        return Option::None;
    }
    let mut p = pos;
    let (len, _) = parse_varint(input, &mut p);
    if p >= input.len() || input[p] != 44u8 {
        return Option::None;
    }
    p += 1;
    let end = p.saturating_add(len as usize);
    if end > input.len() {
        return Option::None;
    }
    Option::Some((pos, end))
}

/// The kind code of a value with this tag byte (0 for an unknown tag).
pub fn kind_from_tag(tag: u8) -> (r: i32)
    ensures
        r == kind_of_tag(tag),
{
    if tag == 43u8 {
        REX_KIND_INT
    } else if tag == 42u8 {
        REX_KIND_DECIMAL
    } else if tag == 44u8 {
        REX_KIND_STRING
    } else if tag == 39u8 {
        REX_KIND_REF
    } else if tag == 36u8 {
        REX_KIND_VARIABLE
    } else if tag == 37u8 {
        REX_KIND_OPCODE
    } else if tag == 92u8 {
        REX_KIND_BREAK_CONT
    } else if tag == 94u8 {
        REX_KIND_POINTER
    } else if tag == 91u8 {
        REX_KIND_ARRAY
    } else if tag == 123u8 {
        REX_KIND_OBJECT
    } else if tag == 40u8 {
        REX_KIND_CALL
    } else if tag == 63u8 || tag == 33u8 || tag == 124u8 || tag == 38u8 || tag == 62u8 || tag
        == 60u8 || tag == 35u8 {
        REX_KIND_COMPOUND
    } else if tag == 46u8 {
        REX_KIND_CHAIN
    } else if tag == 61u8 {
        REX_KIND_SET
    } else if tag == 47u8 {
        REX_KIND_SWAP
    } else if tag == 126u8 {
        REX_KIND_DELETE
    } else if tag == 59u8 {
        REX_KIND_RETURN
    } else {
        0
    }
}

/// The kind code of each tag byte.
pub open spec fn kind_of_tag(tag: u8) -> i32 {
    if tag == 43 {
        REX_KIND_INT
    } else if tag == 42 {
        REX_KIND_DECIMAL
    } else if tag == 44 {
        REX_KIND_STRING
    } else if tag == 39 {
        REX_KIND_REF
    } else if tag == 36 {
        REX_KIND_VARIABLE
    } else if tag == 37 {
        REX_KIND_OPCODE
    } else if tag == 92 {
        REX_KIND_BREAK_CONT
    } else if tag == 94 {
        REX_KIND_POINTER
    } else if tag == 91 {
        REX_KIND_ARRAY
    } else if tag == 123 {
        REX_KIND_OBJECT
    } else if tag == 40 {
        REX_KIND_CALL
    } else if tag == 63 || tag == 33 || tag == 124 || tag == 38 || tag == 62 || tag == 60 || tag
        == 35 {
        REX_KIND_COMPOUND
    } else if tag == 46 {
        REX_KIND_CHAIN
    } else if tag == 61 {
        REX_KIND_SET
    } else if tag == 47 {
        REX_KIND_SWAP
    } else if tag == 126 {
        REX_KIND_DELETE
    } else if tag == 59 {
        REX_KIND_RETURN
    } else {
        0
    }
}

// ── Laws ────────────────────────────────────────────────────────────────

/// The digit character of a value below 64 reads back as that value.
pub proof fn lemma_digit_char_roundtrip(d: int)
    requires
        0 <= d < 64,
    ensures
        b64_digit(digit_char(d)) == Option::Some(d),
{
}

/// Encoding a number in base 64 and reading it back gives the number; the
/// numeral has `b64_width(n)` digits, all of them base-64 digits.
pub proof fn law_b64_roundtrip(n: nat)
    ensures
        b64_number(encode_b64(n)) == n,
        encode_b64(n).len() == b64_width(n),
        all_digits(encode_b64(n)),
    decreases n,
{
    if n > 0 {
        law_b64_roundtrip(n / 64);
        let e = encode_b64(n);
        let p = encode_b64(n / 64);
        lemma_digit_char_roundtrip((n % 64) as int);
        assert(e.drop_last() =~= p);
        assert forall|i: int| 0 <= i < e.len() implies (#[trigger] b64_digit(e[i])) is Some by {
            if i < p.len() {
                assert(e[i] == p[i]);
            }
        }
    }
}


/// `a + b`, capped at the largest `usize`.
pub open spec fn sat_add(a: int, b: int) -> int {
    if a + b > usize::MAX {
        usize::MAX as int
    } else {
        a + b
    }
}

/// `a * b`, capped at the largest `usize`.
pub open spec fn sat_mul(a: int, b: int) -> int {
    if a * b > usize::MAX {
        usize::MAX as int
    } else {
        a * b
    }
}

/// `a * b`, capped at the largest `usize`.
pub(crate) fn sat_mul_usize(a: usize, b: usize) -> (r: usize)
    ensures
        r == sat_mul(a as int, b as int),
{
    match a.checked_mul(b) {
        Option::Some(x) => x,
        Option::None => usize::MAX,
    }
}

/// The closing byte of a container opened by `open`.
pub open spec fn closer_of(open: u8) -> u8 {
    if open == 40 {
        41
    } else if open == 91 {
        93
    } else {
        125
    }
}

/// The numeral before a tag at `pos`: its digit count and value.
pub open spec fn numeral_at(s: Seq<u8>, pos: int) -> (int, int) {
    let d = digit_run(s, pos);
    (d, cap_u64(b64_number(s.subrange(pos, pos + d))))
}

/// Where the encoded value starting at `pos` ends, or why it is malformed.
/// A value is a numeral and a tag byte; scalars end there, strings and
/// chains after as many bytes as the numeral says, tagged values after the
/// values they wrap, and containers after their closer (found from the
/// numeral when it gives the body size, else by skipping the items).
pub open spec fn skip_v(s: Seq<u8>, pos: int) -> Result<int, Seq<char>>
    decreases s.len() - pos, 0nat,
{
    if pos < 0 || pos >= s.len() {
        Result::Err("unexpected end of input"@)
    } else {
        let (d, size) = numeral_at(s, pos);
        let p = pos + d;
        proof {
            lemma_digit_run_bound(s, pos);
        }
        if p >= s.len() {
            Result::Err("unexpected end of input after varint"@)
        } else {
            let tag = s[p];
            let p = p + 1;
            let len = (size as u64) as usize as int;
            if tag == 43 || tag == 39 || tag == 36 || tag == 37 || tag == 92 || tag == 94 {
                Result::Ok(p)
            } else if tag == 44 {
                if sat_add(p, len) > s.len() {
                    Result::Err("string length out of bounds"@)
                } else {
                    Result::Ok(sat_add(p, len))
                }
            } else if tag == 42 || tag == 126 || tag == 59 {
                skip_v(s, p)
            } else if tag == 46 {
                if sat_add(p, len) > s.len() {
                    Result::Err("chain body out of bounds"@)
                } else {
                    Result::Ok(sat_add(p, len))
                }
            } else if tag == 61 || tag == 47 {
                match skip_v(s, p) {
                    Result::Ok(q) => if pos < q <= s.len() {
                        skip_v(s, q)
                    } else {
                        Result::Err("unexpected end of input"@)
                    },
                    Result::Err(m) => Result::Err(m),
                }
            } else if tag == 40 || tag == 91 || tag == 123 {
                let closer = closer_of(tag);
                if d > 0 {
                    let body_end = sat_add(p, len);
                    if body_end >= s.len() {
                        Result::Err("sized container out of bounds"@)
                    } else if s[body_end] != closer {
                        Result::Err("sized container closer mismatch"@)
                    } else {
                        Result::Ok(body_end + 1)
                    }
                } else {
                    let (d2, packed) = numeral_at(s, p);
                    let q = p + d2;
                    proof {
                        if p < s.len() {
                            lemma_digit_run_bound(s, p);
                        }
                    }
                    if (tag == 91 || tag == 123) && p < s.len() && d2 > 0 && q < s.len() && s[q]
                        == 35 {
                        let count = ((packed as u64) >> 3u64) as usize as int;
                        let width = ((packed as u64) & 7u64) as usize + 1;
                        let table_len = sat_mul(count, width);
                        proof {
                            assert(count * width >= 0) by (nonlinear_arith)
                                requires
                                    count >= 0,
                                    width >= 0,
                            ;
                        }
                        if sat_add(q + 1, table_len) > s.len() {
                            Result::Err("indexed table out of bounds"@)
                        } else if sat_add(q + 1, table_len) > pos {
                            skip_items(s, sat_add(q + 1, table_len), closer, "missing container closer"@)
                        } else {
                            Result::Err("missing container closer"@)
                        }
                    } else {
                        skip_items(s, p, closer, "missing container closer"@)
                    }
                }
            } else if tag == 63 || tag == 33 || tag == 124 || tag == 38 || tag == 62 || tag == 60
                || tag == 35 {
                if p >= s.len() {
                    Result::Err("compound missing opener"@)
                } else if s[p] != 40 && s[p] != 91 && s[p] != 123 {
                    Result::Err("invalid compound opener"@)
                } else {
                    let closer = closer_of(s[p]);
                    let p = p + 1;
                    if d > 0 {
                        let body_end = sat_add(p, len);
                        if body_end >= s.len() {
                            Result::Err("sized compound out of bounds"@)
                        } else if s[body_end] != closer {
                            Result::Err("sized compound closer mismatch"@)
                        } else {
                            Result::Ok(body_end + 1)
                        }
                    } else {
                        skip_items(s, p, closer, "missing compound closer"@)
                    }
                }
            } else {
                Result::Err("unknown tag"@)
            }
        }
    }
}

/// Skips the values from `pos` up to the byte `closer`, and past it;
/// `missing` when the input ends first.
pub open spec fn skip_items(s: Seq<u8>, pos: int, closer: u8, missing: Seq<char>) -> Result<
    int,
    Seq<char>,
>
    decreases s.len() - pos, 1nat,
{
    if pos < 0 || pos >= s.len() {
        Result::Err(missing)
    } else if s[pos] == closer {
        Result::Ok(pos + 1)
    } else {
        match skip_v(s, pos) {
            Result::Ok(q) => if pos < q <= s.len() {
                skip_items(s, q, closer, missing)
            } else {
                Result::Err(missing)
            },
            Result::Err(m) => Result::Err(m),
        }
    }
}

/// Skips the values from `pos` up to `closer` and past it (see `skip_items`).
fn skip_items_from(input: &[u8], pos: usize, closer: u8, missing: &'static str) -> (r: Result<
    usize,
    &'static str,
>)
    requires
        pos <= input@.len(),
    ensures
        match r {
            Result::Ok(e) => skip_items(input@, pos as int, closer, missing@) == Result::<
                int,
                Seq<char>,
            >::Ok(e as int) && pos < e <= input@.len(),
            Result::Err(m) => skip_items(input@, pos as int, closer, missing@) == Result::<
                int,
                Seq<char>,
            >::Err(m@),
        },
    decreases input@.len() - pos, 1nat,
{
    let mut p = pos;
    while p < input.len() && input[p] != closer
        invariant
            pos <= p <= input@.len(),
            skip_items(input@, pos as int, closer, missing@) == skip_items(
                input@,
                p as int,
                closer,
                missing@,
            ),
        decreases input@.len() - p,
    {
        match skip_value_from(input, p) {
            Result::Ok(q) => {
                p = q;
            },
            Result::Err(m) => {
                return Result::Err(m);
            },
        }
    }
    if p >= input.len() {
        return Result::Err(missing);
    }
    Result::Ok(p + 1)
}

/// Skips over the encoded value at `pos`: where it ends, or why it is
/// malformed (see `skip_v`).
pub fn skip_value_from(input: &[u8], pos: usize) -> (r: Result<usize, &'static str>)
    ensures
        match r {
            Result::Ok(e) => skip_v(input@, pos as int) == Result::<int, Seq<char>>::Ok(e as int)
                && pos < e <= input@.len(),
            Result::Err(m) => skip_v(input@, pos as int) == Result::<int, Seq<char>>::Err(m@),
        },
    decreases input@.len() - pos, 0nat,
{
    if pos >= input.len() {
        return Result::Err("unexpected end of input");
    }
    let mut p = pos;
    let (size, digits) = parse_varint(input, &mut p);
    proof {
        lemma_digit_run_bound(input@, pos as int);
    }
    if p >= input.len() {
        return Result::Err("unexpected end of input after varint");
    }
    let tag = input[p];
    let p = p + 1;
    let len = size as usize;
    if tag == 43u8 || tag == 39u8 || tag == 36u8 || tag == 37u8 || tag == 92u8 || tag == 94u8 {
        Result::Ok(p)
    } else if tag == 44u8 {
        let end = p.saturating_add(len);
        if end > input.len() {
            return Result::Err("string length out of bounds");
        }
        Result::Ok(end)
    } else if tag == 42u8 || tag == 126u8 || tag == 59u8 {
        skip_value_from(input, p)
    } else if tag == 46u8 {
        let body_end = p.saturating_add(len);
        if body_end > input.len() {
            return Result::Err("chain body out of bounds");
        }
        Result::Ok(body_end)
    } else if tag == 61u8 || tag == 47u8 {
        match skip_value_from(input, p) {
            Result::Ok(q) => skip_value_from(input, q),
            Result::Err(m) => Result::Err(m),
        }
    } else if tag == 40u8 || tag == 91u8 || tag == 123u8 {
        let closer = if tag == 40u8 {
            41u8
        } else if tag == 91u8 {
            93u8
        } else {
            125u8
        };
        if digits > 0 {
            let body_end = p.saturating_add(len);
            if body_end >= input.len() {
                return Result::Err("sized container out of bounds");
            }
            if input[body_end] != closer {
                return Result::Err("sized container closer mismatch");
            }
            return Result::Ok(body_end + 1);
        }
        let mut start = p;
        if (tag == 91u8 || tag == 123u8) && p < input.len() {
            let mut q = p;
            let (packed, dlen) = parse_varint(input, &mut q);
            proof {
                lemma_digit_run_bound(input@, p as int);
            }
            if dlen > 0 && q < input.len() && input[q] == 35u8 {
                let count = (packed >> 3u64) as usize;
                assert(packed & 7u64 <= 7u64) by (bit_vector);
                let width = ((packed & 7u64) as usize) + 1;
                let q = q + 1;
                let table_len = sat_mul_usize(count, width);
                if q.saturating_add(table_len) > input.len() {
                    return Result::Err("indexed table out of bounds");
                }
                start = q.saturating_add(table_len);
            }
        }
        skip_items_from(input, start, closer, "missing container closer")
    } else if tag == 63u8 || tag == 33u8 || tag == 124u8 || tag == 38u8 || tag == 62u8 || tag
        == 60u8 || tag == 35u8 {
        if p >= input.len() {
            return Result::Err("compound missing opener");
        }
        let open = input[p];
        let closer = if open == 40u8 {
            41u8
        } else if open == 91u8 {
            93u8
        } else if open == 123u8 {
            125u8
        } else {
            return Result::Err("invalid compound opener");
        };
        let p = p + 1;
        if digits > 0 {
            let body_end = p.saturating_add(len);
            if body_end >= input.len() {
                return Result::Err("sized compound out of bounds");
            }
            if input[body_end] != closer {
                return Result::Err("sized compound closer mismatch");
            }
            return Result::Ok(body_end + 1);
        }
        skip_items_from(input, p, closer, "missing compound closer")
    } else {
        Result::Err("unknown tag")
    }
}
} // verus!
