//! Character-level text helpers shared by the lexer, formatter and tooling.

use vstd::prelude::*;
use vstd::std_specs::iter::IteratorSpec;
use vstd::string::StringExecFns;
use crate::lexer::is_ws_char;

verus! {

/// Appends one character to a string (`String::push`).
///
/// Trusted: the contract claims that `String::push` extends the string by
/// exactly that character.
#[verifier::external_body]
pub(crate) fn push_char(s: &mut String, c: char)
    ensures
        final(s)@ == old(s)@.push(c),
{
    s.push(c);
}

/// Appends a string slice to a string.
pub(crate) fn push_str(s: &mut String, t: &str)
    ensures
        final(s)@ == old(s)@ + t@,
{
    s.append(t);
}

/// Whether two string slices hold the same characters.
pub(crate) fn str_eq(a: &str, b: &str) -> (r: bool)
    ensures
        r == (a@ == b@),
{
    let x = str_chars(a);
    let y = str_chars(b);
    crate::lexer::word_is(x.as_slice(), y.as_slice())
}

/// Appends every character of `cs` to `s`.
pub fn push_chars(s: &mut String, cs: &Vec<char>)
    ensures
        final(s)@ == old(s)@ + cs@,
{
    let mut i: usize = 0;
    while i < cs.len()
        invariant
            0 <= i <= cs@.len(),
            s@ == old(s)@ + cs@.take(i as int),
        decreases cs@.len() - i,
    {
        push_char(s, cs[i]);
        proof {
            assert(cs@.take(i + 1) =~= cs@.take(i as int).push(cs@[i as int]));
        }
        i += 1;
    }
    proof {
        assert(cs@.take(cs@.len() as int) =~= cs@);
    }
}

/// A string holding the characters of `cs`.
pub fn chars_to_string(cs: &Vec<char>) -> (r: String)
    ensures
        r@ == cs@,
{
    let mut s = String::new();
    push_chars(&mut s, cs);
    proof {
        assert(Seq::<char>::empty() + cs@ =~= cs@);
    }
    s
}

/// A string holding the characters of `cs` from `a` up to `b`.
pub fn chars_slice_to_string(cs: &Vec<char>, a: usize, b: usize) -> (r: String)
    requires
        a <= b <= cs@.len(),
    ensures
        r@ == cs@.subrange(a as int, b as int),
{
    let mut s = String::new();
    let mut i: usize = a;
    while i < b
        invariant
            a <= i <= b <= cs@.len(),
            s@ == cs@.subrange(a as int, i as int),
        decreases b - i,
    {
        push_char(&mut s, cs[i]);
        proof {
            assert(cs@.subrange(a as int, i + 1) =~= cs@.subrange(a as int, i as int).push(
                cs@[i as int],
            ));
        }
        i += 1;
    }
    s
}

/// The characters of a string slice, in order.
pub fn str_chars(s: &str) -> (r: Vec<char>)
    ensures
        r@ == s@,
{
    broadcast use vstd::string::group_string_axioms;
    let mut v: Vec<char> = Vec::new();
    let mut it = s.chars();
    proof {
        assert(it.remaining() == s@);
    }
    loop
        invariant
            v@ + it.remaining() == s@,
            it.obeys_prophetic_iter_laws(),
            it.decrease() is Some,
        ensures
            v@ == s@,
        decreases it.decrease()->0,
    {
        let ghost before = it.remaining();
        match it.next() {
            Option::Some(c) => {
                v.push(c);
                proof {
                    assert(before =~= seq![c] + it.remaining());
                }
            },
            Option::None => {
                proof {
                    assert(v@ =~= s@);
                }
                break;
            },
        }
    }
    v
}

/// A new string holding the characters of `s`.
pub fn str_to_string(s: &str) -> (r: String)
    ensures
        r@ == s@,
{
    let mut out = String::new();
    push_str(&mut out, s);
    proof {
        assert(Seq::<char>::empty() + s@ =~= s@);
    }
    out
}

/// The characters of `s` that are not whitespace, in order.
pub open spec fn ink(s: Seq<char>) -> Seq<char>
    decreases s.len(),
{
    if s.len() == 0 {
        Seq::empty()
    } else if is_ws_char(s.last()) {
        ink(s.drop_last())
    } else {
        ink(s.drop_last()).push(s.last())
    }
}

/// Whitespace removal distributes over concatenation.
pub broadcast proof fn lemma_ink_add(a: Seq<char>, b: Seq<char>)
    ensures
        #[trigger] ink(a + b) == ink(a) + ink(b),
    decreases b.len(),
{
    if b.len() == 0 {
        assert(a + b =~= a);
        assert(ink(a) + ink(b) =~= ink(a));
    } else {
        lemma_ink_add(a, b.drop_last());
        assert((a + b).drop_last() =~= a + b.drop_last());
        assert((a + b).last() == b.last());
        if !is_ws_char(b.last()) {
            assert(ink(a) + ink(b.drop_last()).push(b.last()) =~= (ink(a) + ink(b.drop_last())).push(
                b.last(),
            ));
        }
    }
}

/// A run of whitespace has no ink.
pub proof fn lemma_ink_all_ws(s: Seq<char>)
    requires
        forall|i: int| 0 <= i < s.len() ==> is_ws_char(#[trigger] s[i]),
    ensures
        ink(s) == Seq::<char>::empty(),
    decreases s.len(),
{
    if s.len() > 0 {
        lemma_ink_all_ws(s.drop_last());
    }
}

/// The number of bytes of the UTF-8 encoding of `c`.
pub open spec fn utf8_width(c: char) -> nat {
    if (c as u32) < 0x80 {
        1
    } else if (c as u32) < 0x800 {
        2
    } else if (c as u32) < 0x10000 {
        3
    } else {
        4
    }
}

/// The number of bytes of the UTF-8 encoding of `s`.
pub open spec fn utf8_len(s: Seq<char>) -> nat
    decreases s.len(),
{
    if s.len() == 0 {
        0
    } else {
        utf8_len(s.drop_last()) + utf8_width(s.last())
    }
}

pub proof fn lemma_utf8_len_add(a: Seq<char>, b: Seq<char>)
    ensures
        utf8_len(a + b) == utf8_len(a) + utf8_len(b),
    decreases b.len(),
{
    if b.len() == 0 {
        assert(a + b =~= a);
    } else {
        lemma_utf8_len_add(a, b.drop_last());
        assert((a + b).drop_last() =~= a + b.drop_last());
    }
}

/// The UTF-8 encoding of `s` has `utf8_len(s)` bytes.
pub proof fn lemma_encode_len(s: Seq<char>)
    ensures
        vstd::utf8::encode_utf8(s).len() == utf8_len(s),
    decreases s.len(),
{
    if s.len() > 0 {
        lemma_encode_len(s.drop_first());
        vstd::utf8::char_is_scalar(s[0]);
        let v = s[0] as u32;
        assert(vstd::utf8::encode_scalar(v).len() == utf8_width(s[0])) by {
            if vstd::utf8::has_width_1_encoding(v) {
            } else if vstd::utf8::has_width_2_encoding(v) {
            } else if vstd::utf8::has_width_3_encoding(v) {
            } else {
            }
        }
        lemma_utf8_len_add(seq![s[0]], s.drop_first());
        assert(seq![s[0]] + s.drop_first() =~= s);
        assert(seq![s[0]].drop_last() =~= Seq::<char>::empty());
        assert(utf8_len(Seq::<char>::empty()) == 0);
        assert(utf8_len(seq![s[0]]) == utf8_width(s[0]));
        assert(vstd::utf8::encode_utf8(s) == vstd::utf8::encode_scalar(v) + vstd::utf8::encode_utf8(
            s.drop_first(),
        ));
    }
}

/// The UTF-8 width of a character.
pub fn char_width(c: char) -> (r: usize)
    ensures
        r == utf8_width(c),
{
    let u = c as u32;
    if u < 0x80 {
        1
    } else if u < 0x800 {
        2
    } else if u < 0x10000 {
        3
    } else {
        4
    }
}


} // verus!
