//! Pieces of the bytecode interpreter: its errors and the method tables
//! that map method names to opcodes.

use vstd::prelude::*;
use crate::text::str_eq;
use crate::value::Value;

verus! {

/// Why running a program stopped.
#[derive(Debug)]
pub enum RexError {
    GasLimitExceeded,
    UnexpectedEnd,
    UnexpectedTag(u8),
    InvalidBytecode(String),
    HostError(String),
    BreakSignal(u32),
    ContinueSignal(u32),
    ReturnSignal(Value),
}

/// The opcode of an array method, by name.
pub open spec fn array_method_v(name: Seq<char>) -> Option<Seq<char>> {
    if name == "push"@ {
        Option::Some("%pu"@)
    } else if name == "pop"@ {
        Option::Some("%po"@)
    } else if name == "join"@ {
        Option::Some("%jn"@)
    } else if name == "indexOf"@ {
        Option::Some("%ix"@)
    } else if name == "contains"@ {
        Option::Some("%cn"@)
    } else if name == "slice"@ {
        Option::Some("%sl"@)
    } else {
        Option::None
    }
}

/// The opcode of a string method, by name.
pub open spec fn string_method_v(name: Seq<char>) -> Option<Seq<char>> {
    if name == "indexOf"@ {
        Option::Some("%ix"@)
    } else if name == "contains"@ {
        Option::Some("%cn"@)
    } else if name == "slice"@ {
        Option::Some("%sl"@)
    } else if name == "split"@ {
        Option::Some("%sp"@)
    } else if name == "trim"@ {
        Option::Some("%tm"@)
    } else if name == "starts-with"@ {
        Option::Some("%sw"@)
    } else if name == "ends-with"@ {
        Option::Some("%ew"@)
    } else if name == "upper"@ {
        Option::Some("%uc"@)
    } else if name == "lower"@ {
        Option::Some("%lc"@)
    } else if name == "replace"@ {
        Option::Some("%rp"@)
    } else {
        Option::None
    }
}

/// The opcode that an array method dispatches to.
pub fn array_method(name: &str) -> (r: Option<&'static str>)
    ensures
        match r {
            Option::Some(op) => array_method_v(name@) == Option::Some(op@),
            Option::None => array_method_v(name@) is None,
        },
{
    if str_eq(name, "push") {
        Option::Some("%pu")
    } else if str_eq(name, "pop") {
        Option::Some("%po")
    } else if str_eq(name, "join") {
        Option::Some("%jn")
    } else if str_eq(name, "indexOf") {
        Option::Some("%ix")
    } else if str_eq(name, "contains") {
        Option::Some("%cn")
    } else if str_eq(name, "slice") {
        Option::Some("%sl")
    } else {
        Option::None
    }
}

/// The opcode that a string method dispatches to.
pub fn string_method(name: &str) -> (r: Option<&'static str>)
    ensures
        match r {
            Option::Some(op) => string_method_v(name@) == Option::Some(op@),
            Option::None => string_method_v(name@) is None,
        },
{
    if str_eq(name, "indexOf") {
        Option::Some("%ix")
    } else if str_eq(name, "contains") {
        Option::Some("%cn")
    } else if str_eq(name, "slice") {
        Option::Some("%sl")
    } else if str_eq(name, "split") {
        Option::Some("%sp")
    } else if str_eq(name, "trim") {
        Option::Some("%tm")
    } else if str_eq(name, "starts-with") {
        Option::Some("%sw")
    } else if str_eq(name, "ends-with") {
        Option::Some("%ew")
    } else if str_eq(name, "upper") {
        Option::Some("%uc")
    } else if str_eq(name, "lower") {
        Option::Some("%lc")
    } else if str_eq(name, "replace") {
        Option::Some("%rp")
    } else {
        Option::None
    }
}

} // verus!
