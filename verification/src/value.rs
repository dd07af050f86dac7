//! Tagged 64-bit runtime values.
//!
//! A `Value` either inlines a small value or holds a handle into the heap.
//! Layout (low 3 bits = tag):
//!   000 + discriminant  → none, null, false, true
//!   001 + zigzag i61    → small integer
//!   010 + index         → interned string
//!   011 + index         → heap array
//!   100 + index         → heap object
//!   101 + index         → host object
//!   110 + index         → heap float/decimal
//!   111 + offset        → embedded bytecode value

use vstd::prelude::*;
use crate::text::{push_char, push_str};

verus! {

pub const TAG_SPECIAL: u64 = 0;
pub const TAG_INT: u64 = 1;
pub const TAG_STRING: u64 = 2;
pub const TAG_ARRAY: u64 = 3;
pub const TAG_OBJECT: u64 = 4;
pub const TAG_HOST: u64 = 5;
pub const TAG_FLOAT: u64 = 6;
pub const TAG_EMBEDDED: u64 = 7;

/// Bits of `none`, `null`, `false` and `true` (discriminant shifted past the tag).
pub const SPECIAL_NONE: u64 = 0;
pub const SPECIAL_NULL: u64 = 8;
pub const SPECIAL_FALSE: u64 = 16;
pub const SPECIAL_TRUE: u64 = 24;

/// Tagged 64-bit runtime value.
#[derive(Copy, Clone, PartialEq, Eq, Debug, Structural)]
pub struct Value(u64);

impl View for Value {
    type V = u64;

    /// The raw 64 bits.
    closed spec fn view(&self) -> u64 {
        self.0
    }
}

/// The tag of a value's bits.
pub open spec fn tag_of(bits: u64) -> u64 {
    bits & 7
}

/// The payload of a value's bits.
pub open spec fn payload_of(bits: u64) -> u64 {
    bits >> 3
}

/// The bits of a handle with the given tag.
pub open spec fn handle_bits(id: u32, tag: u64) -> u64 {
    ((id as u64) << 3) | tag
}

/// Zigzag encoding: non-negative `n` to `2n`, negative `n` to `-2n - 1`.
pub open spec fn zigzag(n: int) -> int {
    if n >= 0 {
        2 * n
    } else {
        -2 * n - 1
    }
}

/// Zigzag decoding of a payload.
pub open spec fn unzigzag(z: int) -> int {
    if z % 2 == 0 {
        z / 2
    } else {
        -(z / 2 + 1)
    }
}

/// The bits of the small integer `n` (truncated to 64 bits).
pub open spec fn int_bits(n: int) -> u64 {
    (((zigzag(n) as u64) << 3) | 1) as u64
}

/// Whether `n` fits the 61-bit zigzag payload of a small integer.
pub open spec fn fits_small_int(n: int) -> bool {
    -0x1000_0000_0000_0000 <= n < 0x1000_0000_0000_0000
}

/// The value with these bits.
pub closed spec fn value_of_bits(bits: u64) -> Value {
    Value(bits)
}

/// The value of some bits has those bits.
pub broadcast proof fn lemma_value_of_bits(bits: u64)
    ensures
        #[trigger] value_of_bits(bits)@ == bits,
{
}

/// A value is determined by its bits.
pub broadcast proof fn lemma_value_bits(v: Value)
    ensures
        value_of_bits(#[trigger] v@) == v,
{
}

impl Value {
    /// The absent value `none`.
    pub fn none() -> (r: Value)
        ensures
            r@ == SPECIAL_NONE,
    {
        Value(SPECIAL_NONE)
    }

    /// `null`.
    pub fn null() -> (r: Value)
        ensures
            r@ == SPECIAL_NULL,
    {
        Value(SPECIAL_NULL)
    }

    /// `false`.
    pub fn false_value() -> (r: Value)
        ensures
            r@ == SPECIAL_FALSE,
    {
        Value(SPECIAL_FALSE)
    }

    /// `true`.
    pub fn true_value() -> (r: Value)
        ensures
            r@ == SPECIAL_TRUE,
    {
        Value(SPECIAL_TRUE)
    }

    pub fn bool(b: bool) -> (r: Value)
        ensures
            r@ == if b { SPECIAL_TRUE } else { SPECIAL_FALSE },
    {
        if b {
            Value(SPECIAL_TRUE)
        } else {
            Value(SPECIAL_FALSE)
        }
    }

    /// A small integer, zigzag encoded into the 61-bit payload.
    pub fn integer(n: i64) -> (r: Value)
        requires
            n > i64::MIN,
        ensures
            r@ == int_bits(n as int),
    {
        proof {
            if n >= 0 {
                assert((n as u64) << 1 == (2 * n) as u64) by (bit_vector)
                    requires
                        n >= 0,
                ;
            } else {
                let m: u64 = (-n) as u64;
                assert(m << 1 >= 2 && (m << 1) - 1 == (2 * m - 1) as u64) by (bit_vector)
                    requires
                        m > 0,
                        m <= 0x7fff_ffff_ffff_ffff,
                ;
            }
        }
        let z: u64 = if n >= 0 {
            (n as u64) << 1
        } else {
            (((-n) as u64) << 1) - 1
        };
        Value((z << 3) | TAG_INT)
    }

    pub fn string(id: u32) -> (r: Value)
        ensures
            r@ == handle_bits(id, TAG_STRING),
    {
        Value(((id as u64) << 3) | TAG_STRING)
    }

    pub fn array(id: u32) -> (r: Value)
        ensures
            r@ == handle_bits(id, TAG_ARRAY),
    {
        Value(((id as u64) << 3) | TAG_ARRAY)
    }

    pub fn object(id: u32) -> (r: Value)
        ensures
            r@ == handle_bits(id, TAG_OBJECT),
    {
        Value(((id as u64) << 3) | TAG_OBJECT)
    }

    pub fn host(id: u32) -> (r: Value)
        ensures
            r@ == handle_bits(id, TAG_HOST),
    {
        Value(((id as u64) << 3) | TAG_HOST)
    }

    pub fn float(id: u32) -> (r: Value)
        ensures
            r@ == handle_bits(id, TAG_FLOAT),
    {
        Value(((id as u64) << 3) | TAG_FLOAT)
    }

    pub fn embedded(offset: u32) -> (r: Value)
        ensures
            r@ == handle_bits(offset, TAG_EMBEDDED),
    {
        Value(((offset as u64) << 3) | TAG_EMBEDDED)
    }

    /// The tag bits.
    pub fn tag(self) -> (r: u64)
        ensures
            r == tag_of(self@),
    {
        self.0 & 7
    }

    /// The payload bits.
    pub fn payload(self) -> (r: u64)
        ensures
            r == payload_of(self@),
    {
        self.0 >> 3
    }

    pub fn is_none(self) -> (r: bool)
        ensures
            r == (self@ == SPECIAL_NONE),
    {
        self.0 == SPECIAL_NONE
    }

    pub fn is_null(self) -> (r: bool)
        ensures
            r == (self@ == SPECIAL_NULL),
    {
        self.0 == SPECIAL_NULL
    }

    pub fn is_defined(self) -> (r: bool)
        ensures
            r == (self@ != SPECIAL_NONE),
    {
        !self.is_none()
    }

    pub fn is_string(self) -> (r: bool)
        ensures
            r == (tag_of(self@) == TAG_STRING),
    {
        self.tag() == TAG_STRING
    }

    pub fn is_array(self) -> (r: bool)
        ensures
            r == (tag_of(self@) == TAG_ARRAY),
    {
        self.tag() == TAG_ARRAY
    }

    pub fn is_object(self) -> (r: bool)
        ensures
            r == (tag_of(self@) == TAG_OBJECT),
    {
        self.tag() == TAG_OBJECT
    }

    pub fn is_host(self) -> (r: bool)
        ensures
            r == (tag_of(self@) == TAG_HOST),
    {
        self.tag() == TAG_HOST
    }

    pub fn is_embedded(self) -> (r: bool)
        ensures
            r == (tag_of(self@) == TAG_EMBEDDED),
    {
        self.tag() == TAG_EMBEDDED
    }

    pub fn as_bool(self) -> (r: Option<bool>)
        ensures
            r == if self@ == SPECIAL_TRUE {
                Option::Some(true)
            } else if self@ == SPECIAL_FALSE {
                Option::Some(false)
            } else {
                Option::None
            },
    {
        if self.0 == SPECIAL_TRUE {
            Option::Some(true)
        } else if self.0 == SPECIAL_FALSE {
            Option::Some(false)
        } else {
            Option::None
        }
    }

    /// The small integer held, decoded from its zigzag payload.
    pub fn as_i64(self) -> (r: Option<i64>)
        ensures
            r == if tag_of(self@) == TAG_INT {
                Option::Some(unzigzag(payload_of(self@) as int) as i64)
            } else {
                Option::None
            },
    {
        if self.tag() != TAG_INT {
            return Option::None;
        }
        let bits = self.0;
        let z = self.payload();
        proof {
            assert(z >> 1 < 0x1000_0000_0000_0000 && z >> 1 == z / 2 && (z & 1 == 0) == (z % 2 == 0))
                by (bit_vector)
                requires
                    z == bits >> 3,
            ;
        }
        Option::Some(
            if z & 1 == 0 {
                (z >> 1) as i64
            } else {
                -(((z >> 1) + 1) as i64)
            },
        )
    }

    pub fn string_id(self) -> (r: Option<u32>)
        ensures
            r == if tag_of(self@) == TAG_STRING {
                Option::Some(payload_of(self@) as u32)
            } else {
                Option::None
            },
    {
        if self.tag() == TAG_STRING {
            Option::Some(self.payload() as u32)
        } else {
            Option::None
        }
    }

    pub fn array_id(self) -> (r: Option<u32>)
        ensures
            r == if tag_of(self@) == TAG_ARRAY {
                Option::Some(payload_of(self@) as u32)
            } else {
                Option::None
            },
    {
        if self.tag() == TAG_ARRAY {
            Option::Some(self.payload() as u32)
        } else {
            Option::None
        }
    }

    pub fn object_id(self) -> (r: Option<u32>)
        ensures
            r == if tag_of(self@) == TAG_OBJECT {
                Option::Some(payload_of(self@) as u32)
            } else {
                Option::None
            },
    {
        if self.tag() == TAG_OBJECT {
            Option::Some(self.payload() as u32)
        } else {
            Option::None
        }
    }

    pub fn host_id(self) -> (r: Option<u32>)
        ensures
            r == if tag_of(self@) == TAG_HOST {
                Option::Some(payload_of(self@) as u32)
            } else {
                Option::None
            },
    {
        if self.tag() == TAG_HOST {
            Option::Some(self.payload() as u32)
        } else {
            Option::None
        }
    }

    pub fn float_id(self) -> (r: Option<u32>)
        ensures
            r == if tag_of(self@) == TAG_FLOAT {
                Option::Some(payload_of(self@) as u32)
            } else {
                Option::None
            },
    {
        if self.tag() == TAG_FLOAT {
            Option::Some(self.payload() as u32)
        } else {
            Option::None
        }
    }

    pub fn embedded_offset(self) -> (r: Option<u32>)
        ensures
            r == if tag_of(self@) == TAG_EMBEDDED {
                Option::Some(payload_of(self@) as u32)
            } else {
                Option::None
            },
    {
        if self.tag() == TAG_EMBEDDED {
            Option::Some(self.payload() as u32)
        } else {
            Option::None
        }
    }

    /// The name of this value's type: `none`, `null`, `boolean`, `number`,
    /// `string`, `array` or `object` (embedded values report `object`).
    pub fn type_label(self) -> (r: &'static str)
        ensures
            r@ == type_label_v(self@),
    {
        let t = self.tag();
        if t == TAG_SPECIAL {
            if self.is_none() {
                "none"
            } else if self.is_null() {
                "null"
            } else {
                "boolean"
            }
        } else if t == TAG_INT || t == TAG_FLOAT {
            "number"
        } else if t == TAG_STRING {
            "string"
        } else if t == TAG_ARRAY {
            "array"
        } else {
            "object"
        }
    }
}

/// The type name of a value with these bits.
pub open spec fn type_label_v(bits: u64) -> Seq<char> {
    let t = tag_of(bits);
    if t == TAG_SPECIAL {
        if bits == SPECIAL_NONE {
            "none"@
        } else if bits == SPECIAL_NULL {
            "null"@
        } else {
            "boolean"@
        }
    } else if t == TAG_INT || t == TAG_FLOAT {
        "number"@
    } else if t == TAG_STRING {
        "string"@
    } else if t == TAG_ARRAY {
        "array"@
    } else {
        "object"@
    }
}

// ── Text ────────────────────────────────────────────────────────────────

/// The decimal digit for `d` (below ten).
pub open spec fn digit_char(d: nat) -> char {
    ((d + 48) as u32) as char
}

/// The lowercase hexadecimal digit for `d` (below sixteen).
pub open spec fn hex_char(d: nat) -> char {
    if d < 10 {
        ((d + 48) as u32) as char
    } else {
        ((d + 87) as u32) as char
    }
}

/// The decimal digits of `n`, without leading zeros.
pub open spec fn decimal(n: nat) -> Seq<char>
    decreases n,
{
    if n < 10 {
        seq![digit_char(n)]
    } else {
        decimal(n / 10).push(digit_char(n % 10))
    }
}

/// An integer in decimal, with a `-` when negative.
pub open spec fn int_text(n: int) -> Seq<char> {
    if n < 0 {
        seq!['-'] + decimal((-n) as nat)
    } else {
        decimal(n as nat)
    }
}

/// The last `k` hexadecimal digits of `n`, with leading zeros.
pub open spec fn hex_digits(n: nat, k: nat) -> Seq<char>
    decreases k,
{
    if k == 0 {
        Seq::empty()
    } else {
        hex_digits(n / 16, (k - 1) as nat).push(hex_char(n % 16))
    }
}

/// `name(n)` with `n` in decimal.
pub open spec fn labelled(name: Seq<char>, n: Seq<char>) -> Seq<char> {
    name + seq!['('] + n + seq![')']
}

/// The debugging text of a value with these bits: its kind and contents,
/// such as `Int(-3)` or `String(7)`.
pub open spec fn debug_v(bits: u64) -> Seq<char> {
    let t = tag_of(bits);
    let p = payload_of(bits);
    if bits == SPECIAL_NONE {
        "None"@
    } else if bits == SPECIAL_NULL {
        "Null"@
    } else if bits == SPECIAL_TRUE {
        "Bool(true)"@
    } else if bits == SPECIAL_FALSE {
        "Bool(false)"@
    } else if t == TAG_INT {
        labelled("Int"@, int_text(unzigzag(p as int)))
    } else if t == TAG_STRING {
        labelled("String"@, decimal((p as u32) as nat))
    } else if t == TAG_ARRAY {
        labelled("Array"@, decimal((p as u32) as nat))
    } else if t == TAG_OBJECT {
        labelled("Object"@, decimal((p as u32) as nat))
    } else if t == TAG_HOST {
        labelled("Host"@, decimal((p as u32) as nat))
    } else if t == TAG_FLOAT {
        labelled("Float"@, decimal((p as u32) as nat))
    } else if t == TAG_EMBEDDED {
        labelled("Embedded"@, decimal((p as u32) as nat))
    } else {
        "Value(0x"@ + hex_digits(bits as nat, 16) + seq![')']
    }
}

/// Appends `n` in decimal.
pub fn push_decimal(out: &mut String, n: u64)
    ensures
        final(out)@ == old(out)@ + decimal(n as nat),
    decreases n,
{
    if n >= 10 {
        push_decimal(out, n / 10);
    }
    let d = (n % 10) as u32;
    let c = char_from_digit(d + 48);
    push_char(out, c);
    proof {
        if n < 10 {
            assert(old(out)@ + decimal(n as nat) =~= old(out)@.push(c));
        } else {
            assert(old(out)@ + decimal(n as nat) =~= (old(out)@ + decimal((n / 10) as nat)).push(c));
        }
    }
}

/// The character with the ASCII code `code`.
fn char_from_digit(code: u32) -> (c: char)
    requires
        code < 128,
    ensures
        c == (code as char),
{
    let b = code as u8;
    b as char
}

/// Appends `n` in decimal, with a `-` when negative.
pub fn push_int(out: &mut String, n: i64)
    ensures
        final(out)@ == old(out)@ + int_text(n as int),
{
    if n < 0 {
        push_char(out, '-');
        let m: u64 = (-(n as i128)) as u64;
        push_decimal(out, m);
        proof {
            assert(old(out)@ + int_text(n as int) =~= old(out)@.push('-') + decimal(m as nat));
        }
    } else {
        push_decimal(out, n as u64);
    }
}

/// Appends the last `k` hexadecimal digits of `n`, with leading zeros.
pub(crate) fn push_hex(out: &mut String, n: u64, k: u32)
    ensures
        final(out)@ == old(out)@ + hex_digits(n as nat, k as nat),
    decreases k,
{
    if k == 0 {
        proof {
            assert(old(out)@ + hex_digits(n as nat, 0) =~= old(out)@);
        }
        return;
    }
    push_hex(out, n / 16, k - 1);
    let d = (n % 16) as u32;
    let c = if d < 10 {
        char_from_digit(d + 48)
    } else {
        char_from_digit(d + 87)
    };
    push_char(out, c);
    proof {
        assert(old(out)@ + hex_digits(n as nat, k as nat) =~= (old(out)@ + hex_digits(
            (n / 16) as nat,
            (k - 1) as nat,
        )).push(c));
    }
}

/// Appends `name(n)`.
fn push_labelled(out: &mut String, name: &str, n: u32)
    ensures
        final(out)@ == old(out)@ + labelled(name@, decimal(n as nat)),
{
    push_str(out, name);
    push_char(out, '(');
    push_decimal(out, n as u64);
    push_char(out, ')');
    proof {
        assert(final(out)@ =~= old(out)@ + labelled(name@, decimal(n as nat)));
    }
}

impl Value {
    /// The debugging text of this value (see `debug_v`).
    pub fn debug_text(self) -> (r: String)
        ensures
            r@ == debug_v(self@),
    {
        let mut out = String::new();
        let t = self.tag();
        if self.is_none() {
            push_str(&mut out, "None");
        } else if self.is_null() {
            push_str(&mut out, "Null");
        } else if self.0 == SPECIAL_TRUE {
            push_str(&mut out, "Bool(true)");
        } else if self.0 == SPECIAL_FALSE {
            push_str(&mut out, "Bool(false)");
        } else if t == TAG_INT {
            let n = self.as_i64().unwrap();
            push_str(&mut out, "Int(");
            push_int(&mut out, n);
            push_char(&mut out, ')');
            proof {
                reveal_strlit("Int(");
                reveal_strlit("Int");
                let bits: u64 = self@;
                let p = payload_of(bits);
                assert(p < 0x2000_0000_0000_0000) by (bit_vector)
                    requires
                        p == bits >> 3,
                ;
                assert(out@ =~= labelled("Int"@, int_text(unzigzag(p as int))));
            }
        } else {
            let id = self.payload() as u32;
            if t == TAG_STRING {
                push_labelled(&mut out, "String", id);
            } else if t == TAG_ARRAY {
                push_labelled(&mut out, "Array", id);
            } else if t == TAG_OBJECT {
                push_labelled(&mut out, "Object", id);
            } else if t == TAG_HOST {
                push_labelled(&mut out, "Host", id);
            } else if t == TAG_FLOAT {
                push_labelled(&mut out, "Float", id);
            } else if t == TAG_EMBEDDED {
                push_labelled(&mut out, "Embedded", id);
            } else {
                push_str(&mut out, "Value(0x");
                push_hex(&mut out, self.0, 16);
                push_char(&mut out, ')');
            }
            proof {
                assert(Seq::<char>::empty() + labelled("String"@, decimal(id as nat)) =~= labelled(
                    "String"@,
                    decimal(id as nat),
                ));
                assert(Seq::<char>::empty() + labelled("Array"@, decimal(id as nat)) =~= labelled(
                    "Array"@,
                    decimal(id as nat),
                ));
                assert(Seq::<char>::empty() + labelled("Object"@, decimal(id as nat)) =~= labelled(
                    "Object"@,
                    decimal(id as nat),
                ));
                assert(Seq::<char>::empty() + labelled("Host"@, decimal(id as nat)) =~= labelled(
                    "Host"@,
                    decimal(id as nat),
                ));
                assert(Seq::<char>::empty() + labelled("Float"@, decimal(id as nat)) =~= labelled(
                    "Float"@,
                    decimal(id as nat),
                ));
                assert(Seq::<char>::empty() + labelled("Embedded"@, decimal(id as nat))
                    =~= labelled("Embedded"@, decimal(id as nat)));
            }
        }
        proof {
            assert(Seq::<char>::empty() + "None"@ =~= "None"@);
            assert(Seq::<char>::empty() + "Null"@ =~= "Null"@);
            assert(Seq::<char>::empty() + "Bool(true)"@ =~= "Bool(true)"@);
            assert(Seq::<char>::empty() + "Bool(false)"@ =~= "Bool(false)"@);
        }
        out
    }
}

// ── Laws ────────────────────────────────────────────────────────────────

/// A handle keeps its tag and gives back its index.
pub proof fn law_handle_roundtrip(id: u32, tag: u64)
    requires
        tag < 8,
    ensures
        tag_of(handle_bits(id, tag)) == tag,
        payload_of(handle_bits(id, tag)) == id,
{
    assert((((id as u64) << 3) | tag) & 7 == tag && (((id as u64) << 3) | tag) >> 3 == id as u64)
        by (bit_vector)
        requires
            tag < 8,
    ;
}

/// A small integer decodes to itself when it fits in 61 bits.
pub proof fn law_int_roundtrip(n: int)
    requires
        fits_small_int(n),
    ensures
        tag_of(int_bits(n)) == TAG_INT,
        unzigzag(payload_of(int_bits(n)) as int) == n,
{
    let z = zigzag(n);
    assert(0 <= z < 0x2000_0000_0000_0000);
    let zu = z as u64;
    assert(((zu << 3) | 1) & 7 == 1 && ((zu << 3) | 1) >> 3 == zu) by (bit_vector)
        requires
            zu < 0x2000_0000_0000_0000,
    ;
}

/// Distinct constructors give distinct values: the four special values
/// differ from each other and from every handle and small integer.
pub proof fn law_specials_distinct(id: u32, tag: u64, n: int)
    requires
        1 <= tag < 8,
    ensures
        tag_of(SPECIAL_NONE) == TAG_SPECIAL,
        tag_of(SPECIAL_NULL) == TAG_SPECIAL,
        tag_of(SPECIAL_FALSE) == TAG_SPECIAL,
        tag_of(SPECIAL_TRUE) == TAG_SPECIAL,
        tag_of(handle_bits(id, tag)) != TAG_SPECIAL,
        tag_of(int_bits(n)) != TAG_SPECIAL,
{
    law_handle_roundtrip(id, tag);
    let zu = zigzag(n) as u64;
    assert(((zu << 3) | 1) & 7 == 1) by (bit_vector);
    assert(0u64 & 7 == 0 && 8u64 & 7 == 0 && 16u64 & 7 == 0 && 24u64 & 7 == 0) by (bit_vector);
}

} // verus!
