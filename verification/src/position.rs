//! Positions in source text: byte offsets to lines and columns, and
//! character boundaries.

use vstd::prelude::*;
use vstd::string::StringSliceAdditionalSpecFns;
use vstd::utf8::is_char_boundary;
use crate::text::{char_width, lemma_utf8_len_add, str_chars, utf8_len, utf8_width};

verus! {

/// The line and column (both counted from 1) just after the text `s`.
pub open spec fn line_col_after(s: Seq<char>) -> (int, int)
    decreases s.len(),
{
    if s.len() == 0 {
        (1, 1)
    } else {
        let (l, c) = line_col_after(s.drop_last());
        if s.last() == '\n' {
            (l + 1, 1)
        } else {
            (l, c + 1)
        }
    }
}

/// The number of characters of `s`, from the `j`-th on, that start before
/// byte `offset` (characters start at increasing byte positions).
pub open spec fn chars_before_from(s: Seq<char>, offset: int, j: int) -> int
    decreases s.len() - j,
{
    if j < 0 || j >= s.len() || utf8_len(s.take(j)) >= offset {
        j
    } else {
        chars_before_from(s, offset, j + 1)
    }
}

/// The number of characters of `s` that start before byte `offset`.
pub open spec fn chars_before(s: Seq<char>, offset: int) -> int {
    chars_before_from(s, offset, 0)
}

/// The 1-based line and column of byte `offset` of `s`: the position just
/// after the characters that start before it.
pub open spec fn line_col_at(s: Seq<char>, offset: int) -> (int, int) {
    line_col_after(s.take(chars_before(s, offset)))
}

/// The line and the column after `s` lie between 1 and one past its length.
pub proof fn lemma_line_col_bounds(s: Seq<char>)
    ensures
        1 <= line_col_after(s).0 <= s.len() + 1,
        1 <= line_col_after(s).1 <= s.len() + 1,
    decreases s.len(),
{
    if s.len() > 0 {
        lemma_line_col_bounds(s.drop_last());
    }
}

proof fn lemma_chars_before_range(s: Seq<char>, offset: int, j: int)
    requires
        0 <= j <= s.len(),
    ensures
        j <= chars_before_from(s, offset, j) <= s.len(),
    decreases s.len() - j,
{
    if j < s.len() && utf8_len(s.take(j)) < offset {
        lemma_chars_before_range(s, offset, j + 1);
    }
}

/// At most every character of `s` starts before an offset.
pub proof fn lemma_chars_before_bounds(s: Seq<char>, offset: int)
    ensures
        0 <= chars_before(s, offset) <= s.len(),
{
    lemma_chars_before_range(s, offset, 0);
}

/// Converts a byte offset into a (line, column) pair, both counted from 1.
pub fn offset_to_line_col(source: &str, offset: usize) -> (r: (usize, usize))
    requires
        source@.len() < usize::MAX,
    ensures
        r.0 == line_col_at(source@, offset as int).0,
        r.1 == line_col_at(source@, offset as int).1,
{
    let chars = str_chars(source);
    let ghost s = source@;
    let mut line: usize = 1;
    let mut col: usize = 1;
    let mut byte: usize = 0;
    let mut j: usize = 0;
    proof {
        assert(s.take(0) =~= Seq::<char>::empty());
        assert(utf8_len(Seq::<char>::empty()) == 0);
    }
    while j < chars.len() && byte < offset
        invariant
            chars@ == s,
            s.len() < usize::MAX,
            0 <= j <= s.len(),
            byte == if utf8_len(s.take(j as int)) < offset {
                utf8_len(s.take(j as int)) as int
            } else {
                offset as int
            },
            chars_before_from(s, offset as int, 0) == chars_before_from(s, offset as int, j as int),
            (line as int, col as int) == line_col_after(s.take(j as int)),
        decreases s.len() - j,
    {
        let c = chars[j];
        proof {
            assert(s.take(j + 1) =~= s.take(j as int) + seq![c]);
            assert(s.take(j + 1).drop_last() =~= s.take(j as int));
            lemma_utf8_len_add(s.take(j as int), seq![c]);
            assert(seq![c].drop_last() =~= Seq::<char>::empty());
            assert(utf8_len(Seq::<char>::empty()) == 0);
            assert(utf8_len(seq![c]) == utf8_width(c));
            lemma_line_col_bounds(s.take(j as int));
        }
        if c == '\n' {
            line += 1;
            col = 1;
        } else {
            col += 1;
        }
        let w = char_width(c);
        if w >= offset - byte {
            byte = offset;
        } else {
            byte = byte + w;
        }
        j += 1;
    }
    (line, col)
}

/// Converts a byte offset into a (line, column) pair, both counted from 0.
pub fn offset_to_line_col_0(source: &str, offset: usize) -> (r: (u32, u32))
    requires
        source@.len() < u32::MAX,
    ensures
        r.0 == line_col_at(source@, offset as int).0 - 1,
        r.1 == line_col_at(source@, offset as int).1 - 1,
{
    let (line, col) = offset_to_line_col(source, offset);
    proof {
        lemma_chars_before_range(source@, offset as int, 0);
        lemma_line_col_bounds(source@.take(chars_before(source@, offset as int)));
    }
    ((line - 1) as u32, (col - 1) as u32)
}

/// The first character boundary of `s` after byte `i` (or a position at or
/// past the end).
pub fn next_char_boundary(s: &str, i: usize) -> (r: usize)
    requires
        i < usize::MAX,
    ensures
        i < r,
        r >= s.len() || is_char_boundary(s.spec_bytes(), r as int),
        forall|j: int| i < j < r ==> j < s.len() && !is_char_boundary(s.spec_bytes(), j),
{
    let mut j = i + 1;
    while j < s.len() && !s.is_char_boundary(j)
        invariant
            i < j,
            forall|k: int| i < k < j ==> k < s.len() && !is_char_boundary(s.spec_bytes(), k),
        decreases s.len() - j,
    {
        j += 1;
    }
    j
}

} // verus!
