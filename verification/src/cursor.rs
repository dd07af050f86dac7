//! The editor's cursor in source text: from a (line, character) position to
//! a byte offset, and the words around the cursor.

use vstd::prelude::*;
use vstd::string::StringSliceAdditionalSpecFns;
use vstd::utf8::is_char_boundary;
use crate::position::{chars_before, line_col_after};
use crate::text::{
    char_width, chars_slice_to_string, lemma_encode_len, lemma_utf8_len_add, str_chars, utf8_len,
    utf8_width,
};

verus! {

/// What `char::is_alphanumeric` answers for `c` (Unicode's alphabetic and
/// numeric characters).
pub uninterp spec fn alphanumeric(c: char) -> bool;

/// Calls `char::is_alphanumeric`; the answer is named `alphanumeric`.
#[verifier::external_body]
pub(crate) fn is_alphanumeric(c: char) -> (r: bool)
    ensures
        r == alphanumeric(c),
{
    c.is_alphanumeric()
}

/// Index of the character at the 0-based (`line`, `character`) position of
/// `s`, from index `j` on: the first character standing at that position,
/// or the newline that ends that line when the line is shorter; the length
/// of `s` when there is neither.
pub open spec fn position_index_from(s: Seq<char>, line: int, character: int, j: int) -> int
    decreases s.len() - j,
{
    if j < 0 || j >= s.len() {
        s.len() as int
    } else {
        let (l, c) = line_col_after(s.take(j));
        if l - 1 == line && c - 1 == character {
            j
        } else if s[j] == '\n' && l - 1 == line {
            j
        } else {
            position_index_from(s, line, character, j + 1)
        }
    }
}

/// Index of the character at the 0-based (`line`, `character`) position.
pub open spec fn position_index(s: Seq<char>, line: int, character: int) -> int {
    position_index_from(s, line, character, 0)
}

/// Whether `c` belongs to a word: alphanumeric, `_` or `-`, and also `.`
/// when `dotted`.
pub open spec fn word_char(c: char, dotted: bool) -> bool {
    alphanumeric(c) || c == '_' || c == '-' || (dotted && c == '.')
}

/// Where the word that ends at index `j` starts.
pub open spec fn word_start(s: Seq<char>, j: int, dotted: bool) -> int
    decreases j,
{
    if j <= 0 || j > s.len() {
        0
    } else if !word_char(s[j - 1], dotted) {
        j
    } else {
        word_start(s, j - 1, dotted)
    }
}

/// Where the word that starts at index `j` ends.
pub open spec fn word_end(s: Seq<char>, j: int, dotted: bool) -> int
    decreases s.len() - j,
{
    if j < 0 || j >= s.len() {
        s.len() as int
    } else if !word_char(s[j], dotted) {
        j
    } else {
        word_end(s, j + 1, dotted)
    }
}

/// The word around index `j`.
pub open spec fn word_around(s: Seq<char>, j: int, dotted: bool) -> Seq<char> {
    s.subrange(word_start(s, j, dotted), word_end(s, j, dotted))
}

/// How many `{` outnumber `}` in `s`.
pub open spec fn brace_depth(s: Seq<char>) -> int
    decreases s.len(),
{
    if s.len() == 0 {
        0
    } else if s.last() == '{' {
        brace_depth(s.drop_last()) + 1
    } else if s.last() == '}' {
        brace_depth(s.drop_last()) - 1
    } else {
        brace_depth(s.drop_last())
    }
}

pub(crate) proof fn lemma_position_index(s: Seq<char>, line: int, character: int, j: int)
    requires
        0 <= j <= s.len(),
    ensures
        j <= position_index_from(s, line, character, j) <= s.len(),
    decreases s.len() - j,
{
    if j < s.len() {
        lemma_position_index(s, line, character, j + 1);
    }
}

proof fn lemma_line_col_bounds(s: Seq<char>)
    ensures
        1 <= line_col_after(s).0 <= s.len() + 1,
        1 <= line_col_after(s).1 <= s.len() + 1,
    decreases s.len(),
{
    if s.len() > 0 {
        lemma_line_col_bounds(s.drop_last());
    }
}

proof fn lemma_word_start(s: Seq<char>, j: int, dotted: bool)
    requires
        0 <= j <= s.len(),
    ensures
        0 <= word_start(s, j, dotted) <= j,
    decreases j,
{
    if j > 0 && word_char(s[j - 1], dotted) {
        lemma_word_start(s, j - 1, dotted);
    }
}

proof fn lemma_word_end(s: Seq<char>, j: int, dotted: bool)
    requires
        0 <= j <= s.len(),
    ensures
        j <= word_end(s, j, dotted) <= s.len(),
    decreases s.len() - j,
{
    if j < s.len() && word_char(s[j], dotted) {
        lemma_word_end(s, j + 1, dotted);
    }
}

/// Positions only move forward through the text: a later index stands on a
/// later line, or further along the same line; past a newline, on a later
/// line.
proof fn lemma_line_col_forward(s: Seq<char>, k: int, j: int)
    requires
        0 <= k < j <= s.len(),
    ensures
        line_col_after(s.take(k)).0 < line_col_after(s.take(j)).0 || (line_col_after(s.take(k)).0
            == line_col_after(s.take(j)).0 && line_col_after(s.take(k)).1 < line_col_after(
            s.take(j),
        ).1),
        s[k] == '\n' ==> line_col_after(s.take(k)).0 < line_col_after(s.take(j)).0,
    decreases j - k,
{
    assert(s.take(k + 1).drop_last() =~= s.take(k));
    assert(s.take(k + 1).last() == s[k]);
    if j > k + 1 {
        lemma_line_col_forward(s, k + 1, j);
    }
}

/// Scanning from any index up to `j` finds `j` at the position of `j`.
proof fn lemma_scan_finds(s: Seq<char>, k: int, j: int)
    requires
        0 <= k <= j <= s.len(),
    ensures
        position_index_from(
            s,
            line_col_after(s.take(j)).0 - 1,
            line_col_after(s.take(j)).1 - 1,
            k,
        ) == j,
    decreases j - k,
{
    if k < j {
        lemma_line_col_forward(s, k, j);
        lemma_scan_finds(s, k + 1, j);
    }
}

/// The position of a character, turned back into an index, is that
/// character's index: `position_index` undoes `line_col_after`.
pub proof fn law_position_index_of_line_col(s: Seq<char>, j: int)
    requires
        0 <= j <= s.len(),
    ensures
        position_index(s, line_col_after(s.take(j)).0 - 1, line_col_after(s.take(j)).1 - 1) == j,
{
    lemma_scan_finds(s, 0, j);
}

/// Converting a byte offset to a 0-based position (as
/// `offset_to_line_col_0` does) and back (as `position_to_offset` does)
/// lands on the first character that does not start before the offset.
pub proof fn law_offset_position_roundtrip(s: Seq<char>, offset: int)
    ensures
        ({
            let lc = crate::position::line_col_at(s, offset);
            position_index(s, lc.0 - 1, lc.1 - 1) == chars_before(s, offset)
        }),
{
    crate::position::lemma_chars_before_bounds(s, offset);
    law_position_index_of_line_col(s, chars_before(s, offset));
}

/// The character index and the byte offset of the 0-based (`line`,
/// `character`) position of `chars`.
pub(crate) fn position_of(chars: &Vec<char>, line: u32, character: u32) -> (r: (usize, usize))
    requires
        chars@.len() < u32::MAX,
        utf8_len(chars@) <= usize::MAX,
    ensures
        r.0 == position_index(chars@, line as int, character as int),
        r.1 == utf8_len(chars@.take(r.0 as int)),
{
    let ghost s = chars@;
    let mut l: u32 = 0;
    let mut c: u32 = 0;
    let mut byte: usize = 0;
    let mut j: usize = 0;
    proof {
        assert(s.take(0) =~= Seq::<char>::empty());
    }
    while j < chars.len()
        invariant
            chars@ == s,
            s.len() < u32::MAX,
            utf8_len(s) <= usize::MAX,
            0 <= j <= s.len(),
            byte == utf8_len(s.take(j as int)),
            position_index(s, line as int, character as int) == position_index_from(
                s,
                line as int,
                character as int,
                j as int,
            ),
            (l + 1, c + 1) == line_col_after(s.take(j as int)),
        decreases s.len() - j,
    {
        let ch = chars[j];
        if l == line && c == character {
            return (j, byte);
        }
        if ch == '\n' {
            if l == line {
                return (j, byte);
            }
        }
        proof {
            assert(s.take(j + 1) =~= s.take(j as int) + seq![ch]);
            assert(s.take(j + 1).drop_last() =~= s.take(j as int));
            lemma_utf8_len_add(s.take(j as int), seq![ch]);
            assert(seq![ch].drop_last() =~= Seq::<char>::empty());
            assert(utf8_len(seq![ch]) == utf8_width(ch));
            lemma_line_col_bounds(s.take(j as int));
            lemma_utf8_len_add(s.take(j + 1), s.skip(j + 1));
            assert(s.take(j + 1) + s.skip(j + 1) =~= s);
        }
        if ch == '\n' {
            l = l + 1;
            c = 0;
        } else {
            c = c + 1;
        }
        byte = byte + char_width(ch);
        j += 1;
    }
    proof {
        assert(s.take(s.len() as int) =~= s);
    }
    (j, byte)
}

/// The byte offset of the 0-based (`line`, `character`) position of
/// `source`: where the character at that position starts, or the end of
/// that line when it is shorter, or the end of the source.
pub fn position_to_offset(source: &str, line: u32, character: u32) -> (r: usize)
    requires
        source@.len() < u32::MAX,
    ensures
        r == utf8_len(source@.take(position_index(source@, line as int, character as int))),
        r <= source.spec_bytes().len(),
{
    let chars = str_chars(source);
    let _n = byte_len(source);
    let (j, byte) = position_of(&chars, line, character);
    proof {
        lemma_position_index(source@, line as int, character as int, 0);
        lemma_utf8_len_add(source@.take(j as int), source@.skip(j as int));
        assert(source@.take(j as int) + source@.skip(j as int) =~= source@);
    }
    byte
}

/// The word (letters, digits, `_`, `-`) at the 0-based (`line`,
/// `character`) position of `source`.
pub fn extract_word_at(source: &str, line: u32, character: u32) -> (r: String)
    requires
        source@.len() < u32::MAX,
    ensures
        r@ == word_around(source@, position_index(source@, line as int, character as int), false),
{
    word_at(source, line, character, false)
}

/// The dotted name (a word that may hold `.`) at the 0-based (`line`,
/// `character`) position of `source`, such as `json.parse`.
pub fn extract_dotted_word_at(source: &str, line: u32, character: u32) -> (r: String)
    requires
        source@.len() < u32::MAX,
    ensures
        r@ == word_around(source@, position_index(source@, line as int, character as int), true),
{
    word_at(source, line, character, true)
}

/// The dotted name that ends at the 0-based (`line`, `character`) position
/// of `source`: the text that completion extends.
pub fn extract_word_before(source: &str, line: u32, character: u32) -> (r: String)
    requires
        source@.len() < u32::MAX,
    ensures
        ({
            let p = position_index(source@, line as int, character as int);
            r@ == source@.subrange(word_start(source@, p, true), p)
        }),
{
    let chars = str_chars(source);
    let _n = byte_len(source);
    let (p, _) = position_of(&chars, line, character);
    proof {
        lemma_position_index(source@, line as int, character as int, 0);
    }
    let start = start_of_word(&chars, p, true);
    chars_slice_to_string(&chars, start, p)
}

/// The word around the position, with or without dots.
fn word_at(source: &str, line: u32, character: u32, dotted: bool) -> (r: String)
    requires
        source@.len() < u32::MAX,
    ensures
        r@ == word_around(source@, position_index(source@, line as int, character as int), dotted),
{
    let chars = str_chars(source);
    let _n = byte_len(source);
    let (p, _) = position_of(&chars, line, character);
    proof {
        lemma_position_index(source@, line as int, character as int, 0);
    }
    let start = start_of_word(&chars, p, dotted);
    let end = end_of_word(&chars, p, dotted);
    chars_slice_to_string(&chars, start, end)
}

/// The number of bytes of `s`.
pub(crate) fn byte_len(s: &str) -> (r: usize)
    ensures
        r == s.spec_bytes().len(),
        r == utf8_len(s@),
{
    let b = s.as_bytes();
    proof {
        lemma_encode_len(s@);
    }
    b.len()
}

/// Whether `c` belongs to a word.
fn is_word_char(c: char, dotted: bool) -> (r: bool)
    ensures
        r == word_char(c, dotted),
{
    is_alphanumeric(c) || c == '_' || c == '-' || (dotted && c == '.')
}

/// Where the word ending at `j` starts.
pub(crate) fn start_of_word(chars: &Vec<char>, j: usize, dotted: bool) -> (r: usize)
    requires
        j <= chars@.len(),
    ensures
        r == word_start(chars@, j as int, dotted),
        r <= j,
{
    let mut i = j;
    while i > 0 && is_word_char(chars[i - 1], dotted)
        invariant
            0 <= i <= j <= chars@.len(),
            word_start(chars@, j as int, dotted) == word_start(chars@, i as int, dotted),
        decreases i,
    {
        i -= 1;
    }
    i
}

/// Where the word starting at `j` ends.
pub(crate) fn end_of_word(chars: &Vec<char>, j: usize, dotted: bool) -> (r: usize)
    requires
        j <= chars@.len(),
    ensures
        r == word_end(chars@, j as int, dotted),
        j <= r <= chars@.len(),
{
    let mut i = j;
    while i < chars.len() && is_word_char(chars[i], dotted)
        invariant
            j <= i <= chars@.len(),
            word_end(chars@, j as int, dotted) == word_end(chars@, i as int, dotted),
        decreases chars@.len() - i,
    {
        i += 1;
    }
    i
}

/// Whether byte `offset` of `source` lies inside curly braces: more `{`
/// than `}` before it.
pub fn is_in_braces(source: &str, offset: usize) -> (r: bool)
    requires
        offset <= source.spec_bytes().len(),
        is_char_boundary(source.spec_bytes(), offset as int),
        source@.len() < i32::MAX,
    ensures
        r == (brace_depth(source@.take(chars_before(source@, offset as int))) > 0),
{
    let chars = str_chars(source);
    let _n = byte_len(source);
    let ghost s = source@;
    let mut depth: i64 = 0;
    let mut byte: usize = 0;
    let mut j: usize = 0;
    proof {
        assert(s.take(0) =~= Seq::<char>::empty());
    }
    while j < chars.len() && byte < offset
        invariant
            chars@ == s,
            s.len() < i32::MAX,
            0 <= j <= s.len(),
            utf8_len(s) <= usize::MAX,
            byte == utf8_len(s.take(j as int)),
            crate::position::chars_before_from(s, offset as int, 0)
                == crate::position::chars_before_from(s, offset as int, j as int),
            depth == brace_depth(s.take(j as int)),
            -(j as int) <= depth <= j,
        decreases s.len() - j,
    {
        let ch = chars[j];
        proof {
            assert(s.take(j + 1) =~= s.take(j as int) + seq![ch]);
            assert(s.take(j + 1).drop_last() =~= s.take(j as int));
            lemma_utf8_len_add(s.take(j as int), seq![ch]);
            assert(seq![ch].drop_last() =~= Seq::<char>::empty());
            assert(utf8_len(seq![ch]) == utf8_width(ch));
            lemma_utf8_len_add(s.take(j + 1), s.skip(j + 1));
            assert(s.take(j + 1) + s.skip(j + 1) =~= s);
        }
        if ch == '{' {
            depth = depth + 1;
        } else if ch == '}' {
            depth = depth - 1;
        }
        byte = byte + char_width(ch);
        j += 1;
    }
    depth > 0
}

} // verus!
